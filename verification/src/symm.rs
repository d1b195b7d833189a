//! The streaming symmetric cipher: the payload is sealed as a sequence of
//! fixed-size authenticated chunks, each under a nonce derived from the
//! session key's initialization value and the chunk's position, so that
//! chunks can neither be reordered nor dropped, and the final chunk is
//! bound to a distinct last-chunk nonce that finalizes the stream.

use vstd::prelude::*;

use aes_siv::aead::{Aead, KeyInit};

use crate::errors::Error;
use crate::header::subvec;
use crate::header::Aes256Siv;

verus! {

/// The length of each chunk's authentication tag.
pub const TAG_SIZE: usize = 16;

/// The default plaintext chunk size: 8 KiB less the tag reserve.
pub const MESSAGE_SIZE: usize = 8 * 1024 - 16;

/// The byte at offset `i` of the seal of `msg` under `key` and `nonce`.
/// AES-SIV is deterministic, so the bytes are a function of key, nonce and
/// message alone.
pub uninterp spec fn siv_seal_byte(key: Seq<u8>, nonce: Seq<u8>, msg: Seq<u8>, i: int) -> u8;

/// The seal of `msg` under `key` and `nonce`: exactly 16 bytes longer than
/// the message (the authentication tag, then the ciphertext).
pub open spec fn siv_seal_of(key: Seq<u8>, nonce: Seq<u8>, msg: Seq<u8>) -> Seq<u8> {
    Seq::new(msg.len() + 16, |i: int| siv_seal_byte(key, nonce, msg, i))
}

/// The 16-byte nonce of the chunk at position `pos`: the 8-byte stream
/// initialization value, the position as four big-endian bytes, a
/// last-chunk flag byte, and three zero bytes.
pub open spec fn stream_nonce_spec(iv: Seq<u8>, pos: nat, last: bool) -> Seq<u8> {
    iv + seq![
        ((pos / 0x1000000) % 256) as u8,
        ((pos / 0x10000) % 256) as u8,
        ((pos / 0x100) % 256) as u8,
        (pos % 256) as u8,
        if last {
            1u8
        } else {
            0u8
        },
        0u8,
        0u8,
        0u8,
    ]
}

/// The sealed form of the whole stream: every full chunk of `size` bytes is
/// sealed as a "next" chunk under its position's nonce, and the remainder —
/// strictly shorter than `size`, possibly empty — is sealed as the "last"
/// chunk under the finalizing nonce.
pub open spec fn seal_stream_spec(
    key: Seq<u8>,
    iv: Seq<u8>,
    pos: nat,
    size: nat,
    p: Seq<u8>,
) -> Seq<u8>
    decreases p.len(),
{
    if size == 0 || p.len() < size {
        siv_seal_of(key, stream_nonce_spec(iv, pos, true), p)
    } else {
        siv_seal_of(key, stream_nonce_spec(iv, pos, false), p.take(size as int))
            + seal_stream_spec(key, iv, pos + 1, size, p.skip(size as int))
    }
}

/// Builds the chunk nonce that `stream_nonce_spec` describes.
fn build_nonce(iv: &Vec<u8>, pos: u32, last: bool) -> (r: Vec<u8>)
    requires
        iv@.len() == 8,
    ensures
        r@ == stream_nonce_spec(iv@, pos as nat, last),
        r@.len() == 16,
{
    let mut out: Vec<u8> = Vec::new();
    out.extend_from_slice(iv.as_slice());
    out.push((pos / 0x1000000 % 256) as u8);
    out.push((pos / 0x10000 % 256) as u8);
    out.push((pos / 0x100 % 256) as u8);
    out.push((pos % 256) as u8);
    if last {
        out.push(1u8);
    } else {
        out.push(0u8);
    }
    out.push(0u8);
    out.push(0u8);
    out.push(0u8);
    proof {
        assert(out@ =~= stream_nonce_spec(iv@, pos as nat, last));
    }
    out
}

/// Relies on the `aes-siv` crate's `Aes256SivAead`: `KeyInit::new` builds
/// the cipher from the 64-byte key, and `Aead::encrypt` seals the message
/// under the 16-byte nonce into tag-then-ciphertext, 16 bytes longer than
/// the message. RFC 5297 AES-SIV is deterministic, so the output is a
/// function of key, nonce and message alone; sealing cannot fail here —
/// the cipher rejects only payloads with more associated-data headers than
/// it supports, and this call passes a plain message.
#[verifier::external_body]
fn siv_seal(key: &Vec<u8>, nonce: &Vec<u8>, msg: &Vec<u8>) -> (r: Result<Vec<u8>, Error>)
    requires
        key@.len() == 64,
        nonce@.len() == 16,
    ensures
        r is Ok,
        r matches Ok(c) ==> c@ == siv_seal_of(key@, nonce@, msg@) && (forall|i: int|
            0 <= i < c@.len() ==> c@[i] == siv_seal_byte(key@, nonce@, msg@, i)),
{
    let key_arr: &aes_siv::aead::Key<aes_siv::Aes256SivAead> = match key.as_slice().try_into() {
        Ok(a) => a,
        Err(_) => return Err(Error::CipherFailure),
    };
    let nonce_arr: &aes_siv::Nonce = match nonce.as_slice().try_into() {
        Ok(a) => a,
        Err(_) => return Err(Error::CipherFailure),
    };
    let cipher = aes_siv::Aes256SivAead::new(key_arr);
    cipher.encrypt(nonce_arr, msg.as_slice()).map_err(|_| Error::CipherFailure)
}

/// Relies on the `aes-siv` crate's `Aes256SivAead`: `Aead::decrypt` inverts
/// `Aead::encrypt` — under a given key and nonce it succeeds exactly on the
/// bytes that sealing some message produces, returns that message, and
/// fails tag verification on every other input.
#[verifier::external_body]
fn siv_open(key: &Vec<u8>, nonce: &Vec<u8>, ct: &Vec<u8>) -> (r: Result<Vec<u8>, Error>)
    requires
        key@.len() == 64,
        nonce@.len() == 16,
    ensures
        r matches Ok(m) ==> ct@ == siv_seal_of(key@, nonce@, m@) && m@.len() + 16 == ct@.len(),
        r matches Ok(m) ==> forall|p: Seq<u8>|
            ct@ == siv_seal_of(key@, nonce@, p) ==> m@ == p,
        r matches Err(e) ==> e is AuthenticationFailure && forall|p: Seq<u8>|
            ct@ != siv_seal_of(key@, nonce@, p),
{
    let key_arr: &aes_siv::aead::Key<aes_siv::Aes256SivAead> = match key.as_slice().try_into() {
        Ok(a) => a,
        Err(_) => return Err(Error::AuthenticationFailure),
    };
    let nonce_arr: &aes_siv::Nonce = match nonce.as_slice().try_into() {
        Ok(a) => a,
        Err(_) => return Err(Error::AuthenticationFailure),
    };
    let cipher = aes_siv::Aes256SivAead::new(key_arr);
    cipher.decrypt(nonce_arr, ct.as_slice()).map_err(|_| Error::AuthenticationFailure)
}

/// Seals one chunk of the stream at position `pos` under the session key:
/// a "next" chunk when `last` is false, the finalizing "last" chunk when it
/// is true. Sealing always succeeds and adds exactly the 16-byte tag.
///
/// Chunks are bound to their position and to the last-chunk flag through
/// the nonce, so a caller that seals successive chunks at positions 0, 1,
/// 2, … and marks only the final, short chunk as last produces exactly the
/// stream `seal_stream_spec` describes — without holding more than one
/// chunk in memory.
pub fn seal_chunk(key: &Aes256Siv, pos: u32, last: bool, msg: &Vec<u8>) -> (r: Result<
    Vec<u8>,
    Error,
>)
    requires
        key.wf(),
    ensures
        r is Ok,
        r matches Ok(c) ==> c@ == siv_seal_of(
            key.key@,
            stream_nonce_spec(key.iv@, pos as nat, last),
            msg@,
        ) && c@.len() == msg@.len() + 16,
{
    let nonce = build_nonce(&key.iv, pos, last);
    siv_seal(&key.key, &nonce, msg)
}

/// Opens one chunk of the stream at position `pos` under the session key.
///
/// Success is owed exactly on authentic chunks: whenever `ct` is the seal
/// of some message at this position and flag, that message is returned;
/// any returned message seals back to exactly `ct`; and every other input
/// fails with an authentication error.
pub fn open_chunk(key: &Aes256Siv, pos: u32, last: bool, ct: &Vec<u8>) -> (r: Result<
    Vec<u8>,
    Error,
>)
    requires
        key.wf(),
    ensures
        r matches Ok(m) ==> ct@ == siv_seal_of(
            key.key@,
            stream_nonce_spec(key.iv@, pos as nat, last),
            m@,
        ) && m@.len() + 16 == ct@.len(),
        forall|p: Seq<u8>|
            ct@ == seal_chunk_spec(key.key@, key.iv@, pos as nat, last, p) ==> (r matches Ok(m)
                && m@ == p),
        r matches Err(e) ==> e is AuthenticationFailure,
{
    let nonce = build_nonce(&key.iv, pos, last);
    siv_open(&key.key, &nonce, ct)
}

/// The seal of one chunk at a position: what `seal_chunk` produces.
pub open spec fn seal_chunk_spec(
    key: Seq<u8>,
    iv: Seq<u8>,
    pos: nat,
    last: bool,
    msg: Seq<u8>,
) -> Seq<u8> {
    siv_seal_of(key, stream_nonce_spec(iv, pos, last), msg)
}

/// Seals the whole plaintext as a chunked stream under the session key.
///
/// The call always succeeds, and the ciphertext is exactly
/// `seal_stream_spec` of the input: feeding the same bytes in any
/// increments yields the same stream, and decryption recovers the input
/// from it.
pub fn encrypt_stream(key: &Aes256Siv, input: &Vec<u8>, message_size: usize) -> (r: Result<
    Vec<u8>,
    Error,
>)
    requires
        key.wf(),
        1 <= message_size,
        input@.len() < 0xFFFF_FFFF * message_size as int,
    ensures
        r matches Ok(c) && c@ == seal_stream_spec(
            key.key@,
            key.iv@,
            0,
            message_size as nat,
            input@,
        ),
{
    let ghost k = key.key@;
    let ghost giv = key.iv@;
    let ghost sz = message_size as nat;
    let mut out: Vec<u8> = Vec::new();
    let mut offset: usize = 0;
    let mut pos: u32 = 0;
    proof {
        assert(input@.skip(0) =~= input@);
        assert(out@ + seal_stream_spec(k, giv, 0, sz, input@) =~= seal_stream_spec(
            k,
            giv,
            0,
            sz,
            input@,
        ));
    }
    while input.len() - offset >= message_size
        invariant
            key.wf(),
            k == key.key@,
            giv == key.iv@,
            sz == message_size as nat,
            1 <= message_size,
            offset <= input@.len(),
            pos as int * message_size as int == offset as int,
            input@.len() < 0xFFFF_FFFF * message_size as int,
            seal_stream_spec(k, giv, 0, sz, input@) == out@ + seal_stream_spec(
                k,
                giv,
                pos as nat,
                sz,
                input@.skip(offset as int),
            ),
        decreases input@.len() - offset,
    {
        proof {
            assert(pos < 0xFFFF_FFFF) by (nonlinear_arith)
                requires
                    pos as int * message_size as int == offset as int,
                    offset as int <= input@.len(),
                    input@.len() < 0xFFFF_FFFF * message_size as int,
                    message_size >= 1,
            ;
        }
        let chunk = subvec(input, offset, offset + message_size);
        let nonce = build_nonce(&key.iv, pos, false);
        let sealed = match siv_seal(&key.key, &nonce, &chunk) {
            Ok(c) => c,
            Err(e) => {
                return Err(e);
            },
        };
        let ghost out_old = out@;
        out.extend_from_slice(sealed.as_slice());
        proof {
            let rem = input@.skip(offset as int);
            assert(rem.take(sz as int) =~= input@.subrange(
                offset as int,
                offset as int + message_size as int,
            ));
            assert(rem.skip(sz as int) =~= input@.skip(offset as int + message_size as int));
            assert(seal_stream_spec(k, giv, pos as nat, sz, rem) == siv_seal_of(
                k,
                stream_nonce_spec(giv, pos as nat, false),
                rem.take(sz as int),
            ) + seal_stream_spec(k, giv, pos as nat + 1, sz, rem.skip(sz as int)));
            assert(sealed@ == siv_seal_of(k, stream_nonce_spec(giv, pos as nat, false), chunk@));
            assert(out_old + (sealed@ + seal_stream_spec(k, giv, pos as nat + 1, sz, rem.skip(
                sz as int,
            ))) =~= (out_old + sealed@) + seal_stream_spec(k, giv, pos as nat + 1, sz, rem.skip(
                sz as int,
            )));
            assert((pos + 1) as int * message_size as int == offset as int + message_size as int)
                by (nonlinear_arith)
                requires
                    pos as int * message_size as int == offset as int,
            ;
        }
        offset = offset + message_size;
        pos = pos + 1;
    }
    let chunk = subvec(input, offset, input.len());
    let nonce = build_nonce(&key.iv, pos, true);
    let sealed = match siv_seal(&key.key, &nonce, &chunk) {
        Ok(c) => c,
        Err(e) => {
            return Err(e);
        },
    };
    let ghost out_old = out@;
    out.extend_from_slice(sealed.as_slice());
    proof {
        let rem = input@.skip(offset as int);
        assert(rem.len() < sz);
        assert(chunk@ =~= rem);
        assert(seal_stream_spec(k, giv, pos as nat, sz, rem) == siv_seal_of(
            k,
            stream_nonce_spec(giv, pos as nat, true),
            rem,
        ));
        assert(out@ =~= out_old + sealed@);
        assert(out@ == seal_stream_spec(k, giv, 0, sz, input@));
    }
    Ok(out)
}

/// Opens a chunked stream sealed under the session key, recovering the
/// plaintext.
///
/// Success is owed exactly on authentic streams: whenever the input is the
/// sealed stream of some plaintext, that plaintext is returned; and any
/// returned plaintext seals back to exactly the input, so no output is ever
/// produced from a stream that was not sealed under this key. Any other
/// input fails with an authentication error.
pub fn decrypt_stream(key: &Aes256Siv, input: &Vec<u8>, message_size: usize) -> (r: Result<
    Vec<u8>,
    Error,
>)
    requires
        key.wf(),
        1 <= message_size,
        message_size + 16 <= usize::MAX,
        input@.len() < 0xFFFF_FFFF * (message_size as int + 16),
    ensures
        r matches Ok(p) ==> input@ == seal_stream_spec(
            key.key@,
            key.iv@,
            0,
            message_size as nat,
            p@,
        ),
        forall|p: Seq<u8>|
            input@ == seal_stream_spec(key.key@, key.iv@, 0, message_size as nat, p)
                ==> (r matches Ok(q) && q@ == p),
        r matches Err(e) ==> e is AuthenticationFailure,
{
    let ghost k = key.key@;
    let ghost giv = key.iv@;
    let ghost sz = message_size as nat;
    let block = message_size + 16;
    let mut out: Vec<u8> = Vec::new();
    let mut offset: usize = 0;
    let mut pos: u32 = 0;
    proof {
        assert forall|rest: Seq<u8>| #[trigger] seal_stream_spec(k, giv, 0, sz, out@ + rest)
            == input@.take(offset as int) + seal_stream_spec(k, giv, pos as nat, sz, rest) by {
            assert(out@ + rest =~= rest);
            assert(input@.take(0) + seal_stream_spec(k, giv, 0, sz, rest) =~= seal_stream_spec(
                k,
                giv,
                0,
                sz,
                rest,
            ));
        }
        assert forall|p: Seq<u8>| input@ == #[trigger] seal_stream_spec(k, giv, 0, sz, p) implies {
            &&& p.len() >= out@.len()
            &&& p.take(out@.len() as int) == out@
            &&& input@.skip(offset as int) == seal_stream_spec(
                k,
                giv,
                pos as nat,
                sz,
                p.skip(out@.len() as int),
            )
        } by {
            assert(p.take(0) =~= out@);
            assert(input@.skip(0) =~= input@);
            assert(p.skip(0) =~= p);
        }
    }
    while input.len() - offset >= block
        invariant
            key.wf(),
            k == key.key@,
            giv == key.iv@,
            sz == message_size as nat,
            1 <= message_size,
            block == message_size + 16,
            message_size + 16 <= usize::MAX,
            offset <= input@.len(),
            pos as int * block as int == offset as int,
            out@.len() == pos as int * message_size as int,
            input@.len() < 0xFFFF_FFFF * block as int,
            forall|rest: Seq<u8>| #[trigger] seal_stream_spec(k, giv, 0, sz, out@ + rest)
                == input@.take(offset as int) + seal_stream_spec(k, giv, pos as nat, sz, rest),
            forall|p: Seq<u8>|
                input@ == #[trigger] seal_stream_spec(k, giv, 0, sz, p) ==> p.len() >= out@.len()
                    && p.take(out@.len() as int) == out@ && input@.skip(offset as int)
                    == seal_stream_spec(k, giv, pos as nat, sz, p.skip(out@.len() as int)),
        decreases input@.len() - offset,
    {
        proof {
            assert(pos < 0xFFFF_FFFF) by (nonlinear_arith)
                requires
                    pos as int * block as int == offset as int,
                    offset as int <= input@.len(),
                    input@.len() < 0xFFFF_FFFF * block as int,
                    block >= 1,
            ;
        }
        let ct = subvec(input, offset, offset + block);
        let nonce = build_nonce(&key.iv, pos, false);
        match siv_open(&key.key, &nonce, &ct) {
            Ok(m) => {
                let ghost out_old = out@;
                out.extend_from_slice(m.as_slice());
                proof {
                    assert(ct@ == siv_seal_of(k, stream_nonce_spec(giv, pos as nat, false), m@));
                    assert(m@.len() == sz);
                    assert forall|rest: Seq<u8>| #[trigger] seal_stream_spec(
                        k,
                        giv,
                        0,
                        sz,
                        out@ + rest,
                    ) == input@.take(offset as int + block) + seal_stream_spec(
                        k,
                        giv,
                        pos as nat + 1,
                        sz,
                        rest,
                    ) by {
                        assert(out@ + rest =~= out_old + (m@ + rest));
                        assert(seal_stream_spec(k, giv, 0, sz, out_old + (m@ + rest)) == input@
                            .take(offset as int) + seal_stream_spec(
                            k,
                            giv,
                            pos as nat,
                            sz,
                            m@ + rest,
                        ));
                        assert((m@ + rest).take(sz as int) =~= m@);
                        assert((m@ + rest).skip(sz as int) =~= rest);
                        assert(seal_stream_spec(k, giv, pos as nat, sz, m@ + rest) == ct@
                            + seal_stream_spec(k, giv, pos as nat + 1, sz, rest));
                        assert(input@.take(offset as int) + (ct@ + seal_stream_spec(
                            k,
                            giv,
                            pos as nat + 1,
                            sz,
                            rest,
                        )) =~= input@.take(offset as int + block) + seal_stream_spec(
                            k,
                            giv,
                            pos as nat + 1,
                            sz,
                            rest,
                        ));
                    }
                    assert forall|p: Seq<u8>|
                        input@ == #[trigger] seal_stream_spec(k, giv, 0, sz, p) implies {
                        &&& p.len() >= out@.len()
                        &&& p.take(out@.len() as int) == out@
                        &&& input@.skip(offset as int + block) == seal_stream_spec(
                            k,
                            giv,
                            pos as nat + 1,
                            sz,
                            p.skip(out@.len() as int),
                        )
                    } by {
                        let pp = p.skip(out_old.len() as int);
                        assert(input@.skip(offset as int) == seal_stream_spec(
                            k,
                            giv,
                            pos as nat,
                            sz,
                            pp,
                        ));
                        if pp.len() < sz {
                            assert(seal_stream_spec(k, giv, pos as nat, sz, pp).len() == pp.len()
                                + 16);
                            assert(input@.skip(offset as int).len() >= block);
                            assert(false);
                        }
                        let head = siv_seal_of(
                            k,
                            stream_nonce_spec(giv, pos as nat, false),
                            pp.take(sz as int),
                        );
                        assert(seal_stream_spec(k, giv, pos as nat, sz, pp) == head
                            + seal_stream_spec(k, giv, pos as nat + 1, sz, pp.skip(sz as int)));
                        assert(head.len() == block);
                        assert(ct@ =~= input@.skip(offset as int).take(block as int));
                        assert((head + seal_stream_spec(k, giv, pos as nat + 1, sz, pp.skip(
                            sz as int,
                        ))).take(block as int) =~= head);
                        assert(ct@ == head);
                        assert(m@ == pp.take(sz as int));
                        assert(p.take(out@.len() as int) =~= out_old + m@);
                        assert(input@.skip(offset as int + block) =~= input@.skip(
                            offset as int,
                        ).skip(block as int));
                        assert((head + seal_stream_spec(k, giv, pos as nat + 1, sz, pp.skip(
                            sz as int,
                        ))).skip(block as int) =~= seal_stream_spec(
                            k,
                            giv,
                            pos as nat + 1,
                            sz,
                            pp.skip(sz as int),
                        ));
                        assert(p.skip(out@.len() as int) =~= pp.skip(sz as int));
                    }
                    assert((pos + 1) as int * block as int == offset as int + block as int)
                        by (nonlinear_arith)
                        requires
                            pos as int * block as int == offset as int,
                    ;
                    assert((pos + 1) as int * message_size as int == out@.len() as int)
                        by (nonlinear_arith)
                        requires
                            pos as int * message_size as int == out@.len() - m@.len(),
                            m@.len() == message_size as int,
                    ;
                }
                offset = offset + block;
                pos = pos + 1;
            },
            Err(e) => {
                proof {
                    assert forall|p: Seq<u8>|
                        input@ != #[trigger] seal_stream_spec(k, giv, 0, sz, p) by {
                        if input@ == seal_stream_spec(k, giv, 0, sz, p) {
                            let pp = p.skip(out@.len() as int);
                            assert(input@.skip(offset as int) == seal_stream_spec(
                                k,
                                giv,
                                pos as nat,
                                sz,
                                pp,
                            ));
                            if pp.len() < sz {
                                assert(seal_stream_spec(k, giv, pos as nat, sz, pp).len()
                                    == pp.len() + 16);
                                assert(false);
                            } else {
                                let head = siv_seal_of(
                                    k,
                                    stream_nonce_spec(giv, pos as nat, false),
                                    pp.take(sz as int),
                                );
                                assert(seal_stream_spec(k, giv, pos as nat, sz, pp) == head
                                    + seal_stream_spec(
                                    k,
                                    giv,
                                    pos as nat + 1,
                                    sz,
                                    pp.skip(sz as int),
                                ));
                                assert(head.len() == block);
                                assert(ct@ =~= input@.skip(offset as int).take(block as int));
                                assert((head + seal_stream_spec(
                                    k,
                                    giv,
                                    pos as nat + 1,
                                    sz,
                                    pp.skip(sz as int),
                                )).take(block as int) =~= head);
                                assert(ct@ == head);
                                assert(false);
                            }
                        }
                    }
                }
                return Err(e);
            },
        }
    }
    let ct = subvec(input, offset, input.len());
    let nonce = build_nonce(&key.iv, pos, true);
    match siv_open(&key.key, &nonce, &ct) {
        Ok(m) => {
            let ghost out_old = out@;
            out.extend_from_slice(m.as_slice());
            proof {
                assert(ct@ == siv_seal_of(k, stream_nonce_spec(giv, pos as nat, true), m@));
                assert(m@.len() + 16 == ct@.len());
                assert(m@.len() < sz);
                assert(out@ =~= out_old + m@);
                assert(seal_stream_spec(k, giv, 0, sz, out_old + m@) == input@.take(
                    offset as int,
                ) + seal_stream_spec(k, giv, pos as nat, sz, m@));
                assert(seal_stream_spec(k, giv, pos as nat, sz, m@) == siv_seal_of(
                    k,
                    stream_nonce_spec(giv, pos as nat, true),
                    m@,
                ));
                assert(input@.take(offset as int) + ct@ =~= input@);
                assert(input@ == seal_stream_spec(k, giv, 0, sz, out@));
                assert forall|p: Seq<u8>|
                    input@ == #[trigger] seal_stream_spec(k, giv, 0, sz, p) implies out@ == p by {
                    let pp = p.skip(out_old.len() as int);
                    assert(input@.skip(offset as int) == seal_stream_spec(
                        k,
                        giv,
                        pos as nat,
                        sz,
                        pp,
                    ));
                    if pp.len() >= sz {
                        assert(seal_stream_spec(k, giv, pos as nat, sz, pp).len() >= sz + 16);
                        assert(input@.skip(offset as int).len() < block);
                        assert(false);
                    }
                    assert(seal_stream_spec(k, giv, pos as nat, sz, pp) == siv_seal_of(
                        k,
                        stream_nonce_spec(giv, pos as nat, true),
                        pp,
                    ));
                    assert(ct@ =~= input@.skip(offset as int));
                    assert(m@ == pp);
                    assert(out@ =~= p.take(out_old.len() as int) + pp);
                    assert(p.take(out_old.len() as int) + pp =~= p);
                }
            }
            Ok(out)
        },
        Err(e) => {
            proof {
                assert forall|p: Seq<u8>|
                    input@ != #[trigger] seal_stream_spec(k, giv, 0, sz, p) by {
                    if input@ == seal_stream_spec(k, giv, 0, sz, p) {
                        let pp = p.skip(out@.len() as int);
                        assert(input@.skip(offset as int) == seal_stream_spec(
                            k,
                            giv,
                            pos as nat,
                            sz,
                            pp,
                        ));
                        if pp.len() >= sz {
                            assert(seal_stream_spec(k, giv, pos as nat, sz, pp).len() >= sz + 16);
                            assert(input@.skip(offset as int).len() < block);
                            assert(false);
                        } else {
                            assert(seal_stream_spec(k, giv, pos as nat, sz, pp) == siv_seal_of(
                                k,
                                stream_nonce_spec(giv, pos as nat, true),
                                pp,
                            ));
                            assert(ct@ =~= input@.skip(offset as int));
                            assert(false);
                        }
                    }
                }
            }
            Err(e)
        },
    }
}

} // verus!
