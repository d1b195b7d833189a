//! The binary header that precedes the ciphertext stream, and the session
//! key record carried inside each asymmetric envelope.
//!
//! The wire layout is a four-byte little-endian length prefix followed by
//! exactly that many bytes of a field-tagged binary message: each field is a
//! one-byte tag followed by either a base-128 variable-length integer or a
//! length-prefixed byte string.

use vstd::prelude::*;

use crate::errors::Error;

verus! {

/// Field tag of the header's chunk size (field 1, variable-length integer).
pub const TAG_CHUNK_SIZE: u8 = 0x08;
/// Field tag of one encrypted key envelope (field 2, byte string).
pub const TAG_ENCRYPTED_KEY: u8 = 0x12;
/// Field tag of a byte string in field position 1.
pub const TAG_FIELD1_BYTES: u8 = 0x0A;
/// Field tag of a byte string in field position 2.
pub const TAG_FIELD2_BYTES: u8 = 0x12;

/// Base-128 variable-length encoding of `n`, least significant group first,
/// with the high bit of every byte but the last set.
pub open spec fn varint_spec(n: nat) -> Seq<u8>
    decreases n,
{
    if n < 128 {
        seq![n as u8]
    } else {
        seq![(128 + (n % 128)) as u8] + varint_spec(n / 128)
    }
}

/// Decodes a base-128 variable-length integer from the front of `b`, reading
/// at most `limit` bytes; yields the value and the number of bytes read.
pub open spec fn varint_decode_at(b: Seq<u8>, limit: nat) -> Option<(nat, nat)>
    decreases limit,
{
    if b.len() == 0 || limit == 0 {
        None
    } else if b[0] < 128 {
        Some((b[0] as nat, 1))
    } else {
        match varint_decode_at(b.skip(1), (limit - 1) as nat) {
            Some(p) => Some(((b[0] - 128) as nat + 128 * p.0, p.1 + 1)),
            None => None,
        }
    }
}

/// Decodes a variable-length integer that must fit in 32 bits; at most five
/// bytes are read.
pub open spec fn varint32_decode_spec(b: Seq<u8>) -> Option<(u32, nat)> {
    match varint_decode_at(b, 5) {
        Some(p) => if p.0 <= 0xFFFF_FFFF {
            Some((p.0 as u32, p.1))
        } else {
            None
        },
        None => None,
    }
}

/// A tagged byte-string field: tag, length as a variable-length integer,
/// then the bytes themselves.
pub open spec fn bytes_field_spec(tag: u8, b: Seq<u8>) -> Seq<u8> {
    seq![tag] + varint_spec(b.len()) + b
}

/// The encoding of the ordered envelope collection: one tagged byte-string
/// field per envelope, in order.
pub open spec fn keys_encode_spec(keys: Seq<Seq<u8>>) -> Seq<u8>
    decreases keys.len(),
{
    if keys.len() == 0 {
        Seq::<u8>::empty()
    } else {
        bytes_field_spec(TAG_ENCRYPTED_KEY, keys[0]) + keys_encode_spec(keys.skip(1))
    }
}

/// The header body: the chunk size field followed by the envelope fields.
pub open spec fn header_body_spec(chunk_size: u32, keys: Seq<Seq<u8>>) -> Seq<u8> {
    seq![TAG_CHUNK_SIZE] + varint_spec(chunk_size as nat) + keys_encode_spec(keys)
}

/// Decodes the envelope fields that fill `b` completely.
pub open spec fn keys_decode_spec(b: Seq<u8>) -> Option<Seq<Seq<u8>>>
    decreases b.len(),
{
    if b.len() == 0 {
        Some(Seq::<Seq<u8>>::empty())
    } else if b[0] != TAG_ENCRYPTED_KEY {
        None
    } else {
        match varint32_decode_spec(b.skip(1)) {
            Some((len, used)) => {
                let start = 1 + used;
                if start + len <= b.len() {
                    match keys_decode_spec(b.skip((start + len) as int)) {
                        Some(rest) => Some(
                            seq![b.subrange(start as int, (start + len) as int)] + rest,
                        ),
                        None => None,
                    }
                } else {
                    None
                }
            },
            None => None,
        }
    }
}

/// Decodes a header body: the chunk size field, then the envelope fields.
pub open spec fn header_decode_spec(b: Seq<u8>) -> Option<(u32, Seq<Seq<u8>>)> {
    if b.len() == 0 || b[0] != TAG_CHUNK_SIZE {
        None
    } else {
        match varint32_decode_spec(b.skip(1)) {
            Some((chunk_size, used)) => {
                match keys_decode_spec(b.skip((1 + used) as int)) {
                    Some(keys) => Some((chunk_size, keys)),
                    None => None,
                }
            },
            None => None,
        }
    }
}

/// The four-byte little-endian encoding of `n`.
pub open spec fn u32_le_spec(n: u32) -> Seq<u8> {
    seq![
        (n % 256) as u8,
        ((n / 256) % 256) as u8,
        ((n / 65536) % 256) as u8,
        ((n / 16777216) % 256) as u8,
    ]
}

/// The value of four little-endian bytes.
pub open spec fn u32_le_decode_spec(b: Seq<u8>) -> u32
    recommends
        b.len() == 4,
{
    (b[0] + b[1] * 256 + b[2] * 65536 + b[3] * 16777216) as u32
}

/// A framed header: the body's length as four little-endian bytes, then the
/// body itself.
pub open spec fn frame_spec(chunk_size: u32, keys: Seq<Seq<u8>>) -> Seq<u8> {
    u32_le_spec(header_body_spec(chunk_size, keys).len() as u32) + header_body_spec(
        chunk_size,
        keys,
    )
}

/// Decodes a framed header from the front of `b`, ignoring whatever follows
/// the framed body; yields the header and the number of bytes consumed.
pub open spec fn frame_decode_spec(b: Seq<u8>) -> Option<((u32, Seq<Seq<u8>>), nat)> {
    if b.len() < 4 {
        None
    } else {
        let len = u32_le_decode_spec(b.subrange(0, 4)) as nat;
        if 4 + len <= b.len() {
            match header_decode_spec(b.subrange(4, (4 + len) as int)) {
                Some(h) => Some((h, 4 + len)),
                None => None,
            }
        } else {
            None
        }
    }
}

/// Appends the variable-length encoding of `n` to `out`.
fn write_varint32(out: &mut Vec<u8>, n: u32)
    ensures
        final(out)@ == old(out)@ + varint_spec(n as nat),
{
    let ghost base = out@;
    let mut n = n;
    let ghost orig = n;
    while n >= 128
        invariant
            out@ + varint_spec(n as nat) == base + varint_spec(orig as nat),
        decreases n,
    {
        proof {
            assert(varint_spec(n as nat) == seq![(128 + (n as nat % 128)) as u8] + varint_spec(
                n as nat / 128,
            ));
            assert(out@ + varint_spec(n as nat) == (out@ + seq![(128 + (n as nat % 128)) as u8])
                + varint_spec(n as nat / 128)) by {
                assert(out@ + (seq![(128 + (n as nat % 128)) as u8] + varint_spec(n as nat / 128))
                    =~= (out@ + seq![(128 + (n as nat % 128)) as u8]) + varint_spec(
                    n as nat / 128,
                ));
            }
        }
        out.push((n % 128 + 128) as u8);
        n = n / 128;
    }
    out.push(n as u8);
    proof {
        assert(varint_spec(n as nat) == seq![n as u8]);
        assert(out@ == base + varint_spec(orig as nat));
    }
}

/// Appends a tagged byte-string field to `out`.
fn write_bytes_field(out: &mut Vec<u8>, tag: u8, b: &Vec<u8>)
    requires
        b@.len() <= 0xFFFF_FFFF,
    ensures
        final(out)@ == old(out)@ + bytes_field_spec(tag, b@),
{
    let ghost base = out@;
    out.push(tag);
    write_varint32(out, b.len() as u32);
    out.extend_from_slice(b.as_slice());
    proof {
        assert(out@ =~= base + bytes_field_spec(tag, b@));
    }
}

/// Appends the four little-endian bytes of `n` to `out`.
fn write_u32_le(out: &mut Vec<u8>, n: u32)
    ensures
        final(out)@ == old(out)@ + u32_le_spec(n),
{
    let ghost base = out@;
    out.push((n % 256) as u8);
    out.push((n / 256 % 256) as u8);
    out.push((n / 65536 % 256) as u8);
    out.push((n / 16777216 % 256) as u8);
    proof {
        assert(out@ =~= base + u32_le_spec(n));
    }
}

/// The header prepended to the ciphertext stream: the chunk size the stream
/// was sealed with, and one encrypted session-key envelope per recipient.
pub struct Header {
    /// The session key, wrapped once per recipient public key.
    pub encrypted_keys: Vec<Vec<u8>>,
    /// The plaintext chunk size of the stream that follows.
    pub chunk_size: u32,
}

impl Header {
    /// Every envelope's length fits the 32-bit lengths of the wire format.
    pub open spec fn wire_ok(&self) -> bool {
        forall|i: int|
            0 <= i < self.encrypted_keys@.len() ==> #[trigger] self.encrypted_keys@[i]@.len()
                <= 0xFFFF_FFFF
    }

    /// The whole body also fits behind the 32-bit length prefix.
    pub open spec fn frame_ok(&self) -> bool {
        &&& self.wire_ok()
        &&& header_body_spec(self.chunk_size, self.encrypted_keys.deep_view()).len()
            <= 0xFFFF_FFFF
    }

    /// Encodes the header body.
    pub fn encode(&self) -> (r: Result<Vec<u8>, Error>)
        ensures
            self.wire_ok() ==> (r matches Ok(v) && v@ == header_body_spec(
                self.chunk_size,
                self.encrypted_keys.deep_view(),
            )),
            !self.wire_ok() ==> (r matches Err(e) && e is HeaderTooLarge),
    {
        let ghost keys = self.encrypted_keys.deep_view();
        let mut out: Vec<u8> = Vec::new();
        out.push(TAG_CHUNK_SIZE);
        write_varint32(&mut out, self.chunk_size);
        let mut i: usize = 0;
        while i < self.encrypted_keys.len()
            invariant
                i <= self.encrypted_keys@.len(),
                keys == self.encrypted_keys.deep_view(),
                keys.len() == self.encrypted_keys@.len(),
                forall|j: int| 0 <= j < keys.len() ==> keys[j] == #[trigger] self.encrypted_keys@[j]@,
                out@ == seq![TAG_CHUNK_SIZE] + varint_spec(self.chunk_size as nat)
                    + keys_encode_spec(keys.take(i as int)),
                forall|j: int|
                    0 <= j < i ==> #[trigger] self.encrypted_keys@[j]@.len() <= 0xFFFF_FFFF,
            decreases self.encrypted_keys@.len() - i,
        {
            let key = &self.encrypted_keys[i];
            if key.len() > 0xFFFF_FFFF {
                return Err(Error::HeaderTooLarge);
            }
            write_bytes_field(&mut out, TAG_ENCRYPTED_KEY, key);
            proof {
                assert(keys.take(i + 1) =~= keys.take(i as int).push(keys[i as int]));
                lemma_keys_encode_push(keys.take(i as int), keys[i as int]);
                assert(out@ =~= seq![TAG_CHUNK_SIZE] + varint_spec(self.chunk_size as nat)
                    + keys_encode_spec(keys.take(i + 1)));
            }
            i = i + 1;
        }
        proof {
            assert(keys.take(keys.len() as int) =~= keys);
        }
        Ok(out)
    }

    /// Encodes the header body behind its four-byte little-endian length
    /// prefix.
    pub fn encode_length_delimited(&self) -> (r: Result<Vec<u8>, Error>)
        ensures
            self.frame_ok() ==> (r matches Ok(v) && v@ == frame_spec(
                self.chunk_size,
                self.encrypted_keys.deep_view(),
            )),
            !self.frame_ok() ==> (r matches Err(e) && e is HeaderTooLarge),
    {
        let body = match self.encode() {
            Ok(b) => b,
            Err(e) => {
                return Err(e);
            },
        };
        if body.len() > 0xFFFF_FFFF {
            return Err(Error::HeaderTooLarge);
        }
        let mut out: Vec<u8> = Vec::new();
        write_u32_le(&mut out, body.len() as u32);
        out.extend_from_slice(body.as_slice());
        proof {
            assert(out@ =~= frame_spec(self.chunk_size, self.encrypted_keys.deep_view()));
        }
        Ok(out)
    }
}

/// 128 raised to the power `l`: the number of values a variable-length
/// integer of `l` bytes can take.
pub open spec fn pow128(l: nat) -> nat
    decreases l,
{
    if l == 0 {
        1
    } else {
        128 * pow128((l - 1) as nat)
    }
}

/// Reads a variable-length integer of at most `limit` bytes starting at
/// `pos`, exactly as `varint_decode_at` describes.
fn read_varint_at(input: &Vec<u8>, pos: usize, limit: u8) -> (r: Result<(u64, usize), Error>)
    requires
        pos <= input@.len(),
        limit <= 5,
    ensures
        (match r {
            Ok(p) => varint_decode_at(input@.skip(pos as int), limit as nat) == Some(
                (p.0 as nat, p.1 as nat),
            ) && 1 <= p.1 <= limit && pos + p.1 <= input@.len() && (p.0 as nat) < pow128(
                limit as nat,
            ),
            Err(e) => varint_decode_at(input@.skip(pos as int), limit as nat) is None
                && e is DecodeFailure,
        }),
    decreases limit,
{
    if pos >= input.len() || limit == 0 {
        return Err(Error::DecodeFailure);
    }
    let byte = input[pos];
    if byte < 128 {
        proof {
            assert(input@.skip(pos as int)[0] == byte);
            assert(pow128(limit as nat) >= 128 * pow128(0)) by {
                assert(pow128(1) == 128 * pow128(0));
                lemma_pow128_increases(1, limit as nat);
            }
        }
        Ok((byte as u64, 1))
    } else {
        match read_varint_at(input, pos + 1, limit - 1) {
            Ok((v, used)) => {
                proof {
                    assert(input@.skip(pos as int).skip(1) =~= input@.skip(pos as int + 1));
                    assert(input@.skip(pos as int)[0] == byte);
                    assert(128 * (v as nat) < 128 * pow128((limit - 1) as nat)) by (nonlinear_arith)
                        requires (v as nat) < pow128((limit - 1) as nat);
                    assert(pow128((limit - 1) as nat) <= pow128(4)) by {
                        lemma_pow128_increases((limit - 1) as nat, 4);
                    }
                    assert(pow128(4) == 0x1000_0000) by {
                        assert(pow128(0) == 1);
                        assert(pow128(1) == 128);
                        assert(pow128(2) == 16384);
                        assert(pow128(3) == 0x20_0000);
                    }
                }
                Ok(((byte - 128) as u64 + 128 * v, used + 1))
            },
            Err(e) => {
                proof {
                    assert(input@.skip(pos as int).skip(1) =~= input@.skip(pos as int + 1));
                }
                Err(e)
            },
        }
    }
}

/// `pow128` does not shrink as the exponent grows.
proof fn lemma_pow128_increases(a: nat, b: nat)
    requires
        a <= b,
    ensures
        pow128(a) <= pow128(b),
    decreases b,
{
    if a < b {
        lemma_pow128_increases(a, (b - 1) as nat);
        assert(pow128(b) == 128 * pow128((b - 1) as nat));
        assert(pow128((b - 1) as nat) <= 128 * pow128((b - 1) as nat)) by (nonlinear_arith)
            requires pow128((b - 1) as nat) >= 0;
    }
}

/// Reads a variable-length integer that must fit in 32 bits, exactly as
/// `varint32_decode_spec` describes.
fn read_varint32(input: &Vec<u8>, pos: usize) -> (r: Result<(u32, usize), Error>)
    requires
        pos <= input@.len(),
    ensures
        (match r {
            Ok(p) => varint32_decode_spec(input@.skip(pos as int)) == Some((p.0, p.1 as nat)) && 1
                <= p.1 <= 5 && pos + p.1 <= input@.len(),
            Err(e) => varint32_decode_spec(input@.skip(pos as int)) is None && e is DecodeFailure,
        }),
{
    match read_varint_at(input, pos, 5) {
        Ok((v, used)) => {
            if v <= 0xFFFF_FFFF {
                Ok((v as u32, used))
            } else {
                Err(Error::DecodeFailure)
            }
        },
        Err(e) => Err(e),
    }
}

/// Copies the bytes of `v` between `start` and `end` into a fresh vector.
pub fn subvec(v: &Vec<u8>, start: usize, end: usize) -> (r: Vec<u8>)
    requires
        start <= end <= v@.len(),
    ensures
        r@ == v@.subrange(start as int, end as int),
{
    vstd::slice::slice_to_vec(vstd::slice::slice_subrange(v.as_slice(), start, end))
}

/// Parses the envelope fields that fill `input` from `start` on, exactly as
/// `keys_decode_spec` describes.
fn parse_keys(input: &Vec<u8>, start: usize) -> (r: Result<Vec<Vec<u8>>, Error>)
    requires
        start <= input@.len(),
    ensures
        (match r {
            Ok(v) => keys_decode_spec(input@.skip(start as int)) == Some(v.deep_view()),
            Err(e) => keys_decode_spec(input@.skip(start as int)) is None && e is DecodeFailure,
        }),
{
    let mut acc: Vec<Vec<u8>> = Vec::new();
    let mut pos = start;
    while pos < input.len()
        invariant
            start <= pos <= input@.len(),
            forall|rest: Seq<Seq<u8>>|
                keys_decode_spec(input@.skip(pos as int)) == Some(rest) ==> keys_decode_spec(
                    input@.skip(start as int),
                ) == Some(#[trigger] (acc.deep_view() + rest)),
            keys_decode_spec(input@.skip(pos as int)) is None ==> keys_decode_spec(
                input@.skip(start as int),
            ) is None,
        decreases input@.len() - pos,
    {
        let ghost b_old = input@.skip(pos as int);
        if input[pos] != TAG_ENCRYPTED_KEY {
            proof {
                assert(b_old[0] == input@[pos as int]);
            }
            return Err(Error::DecodeFailure);
        }
        proof {
            assert(b_old.skip(1) =~= input@.skip(pos as int + 1));
        }
        let (len, used) = match read_varint32(input, pos + 1) {
            Ok(p) => p,
            Err(_) => {
                return Err(Error::DecodeFailure);
            },
        };
        let key_start = pos + 1 + used;
        let len_us = len as usize;
        if len_us > input.len() - key_start {
            proof {
                assert((1 + used as nat + len as nat) > b_old.len());
            }
            return Err(Error::DecodeFailure);
        }
        let key = subvec(input, key_start, key_start + len_us);
        let ghost acc_old = acc.deep_view();
        acc.push(key);
        pos = key_start + len_us;
        proof {
            assert(b_old.subrange(1 + used as int, 1 + used as int + len as int) =~= input@
                .subrange(key_start as int, key_start as int + len as int));
            assert(b_old.skip(1 + used as int + len as int) =~= input@.skip(pos as int));
            assert(keys_decode_spec(b_old) == (match keys_decode_spec(input@.skip(pos as int)) {
                Some(rest) => Some(seq![key@] + rest),
                None => None,
            }));
            assert(acc.deep_view() =~~= acc_old.push(key@));
            assert forall|rest: Seq<Seq<u8>>|
                keys_decode_spec(input@.skip(pos as int)) == Some(rest) implies keys_decode_spec(
                input@.skip(start as int),
            ) == Some(#[trigger] (acc.deep_view() + rest)) by {
                assert(keys_decode_spec(b_old) == Some(seq![key@] + rest));
                assert(acc_old + (seq![key@] + rest) =~= acc.deep_view() + rest);
            }
        }
    }
    proof {
        assert(input@.skip(pos as int) =~= Seq::<u8>::empty());
        assert(keys_decode_spec(input@.skip(pos as int)) == Some(Seq::<Seq<u8>>::empty()));
        assert(acc.deep_view() + Seq::<Seq<u8>>::empty() =~= acc.deep_view());
    }
    Ok(acc)
}

impl Header {
    /// Parses a header body, exactly as `header_decode_spec` describes.
    pub fn decode(input: &Vec<u8>) -> (r: Result<Header, Error>)
        ensures
            (match r {
                Ok(h) => header_decode_spec(input@) == Some(
                    (h.chunk_size, h.encrypted_keys.deep_view()),
                ),
                Err(e) => header_decode_spec(input@) is None && e is DecodeFailure,
            }),
    {
        if input.len() == 0 {
            return Err(Error::DecodeFailure);
        }
        if input[0] != TAG_CHUNK_SIZE {
            return Err(Error::DecodeFailure);
        }
        proof {
            assert(input@.skip(0) =~= input@);
        }
        let (chunk_size, used) = match read_varint32(input, 1) {
            Ok(p) => p,
            Err(_) => {
                return Err(Error::DecodeFailure);
            },
        };
        let keys = match parse_keys(input, 1 + used) {
            Ok(v) => v,
            Err(_) => {
                return Err(Error::DecodeFailure);
            },
        };
        Ok(Header { encrypted_keys: keys, chunk_size })
    }

    /// Parses a framed header from the front of `input`, returning the
    /// header and how many bytes of `input` it occupied, exactly as
    /// `frame_decode_spec` describes.
    pub fn decode_length_delimited(input: &Vec<u8>) -> (r: Result<(Header, usize), Error>)
        ensures
            (match r {
                Ok(p) => frame_decode_spec(input@) == Some(
                    ((p.0.chunk_size, p.0.encrypted_keys.deep_view()), p.1 as nat),
                ) && p.1 <= input@.len(),
                Err(e) => frame_decode_spec(input@) is None && e is DecodeFailure,
            }),
    {
        if input.len() < 4 {
            return Err(Error::DecodeFailure);
        }
        let b0 = input[0] as u32;
        let b1 = input[1] as u32;
        let b2 = input[2] as u32;
        let b3 = input[3] as u32;
        let len = b0 + b1 * 256 + b2 * 65536 + b3 * 16777216;
        proof {
            assert(len == u32_le_decode_spec(input@.subrange(0, 4)));
        }
        let len_us = len as usize;
        if len_us > input.len() - 4 {
            return Err(Error::DecodeFailure);
        }
        let body = subvec(input, 4, 4 + len_us);
        match Header::decode(&body) {
            Ok(h) => Ok((h, 4 + len_us)),
            Err(_) => Err(Error::DecodeFailure),
        }
    }
}

/// Reads the body length out of a frame's four-byte little-endian length
/// prefix, so a streaming caller knows how many header bytes follow.
pub fn frame_body_len(prefix: &Vec<u8>) -> (r: u32)
    requires
        prefix@.len() == 4,
    ensures
        r == u32_le_decode_spec(prefix@),
{
    let b0 = prefix[0] as u32;
    let b1 = prefix[1] as u32;
    let b2 = prefix[2] as u32;
    let b3 = prefix[3] as u32;
    b0 + b1 * 256 + b2 * 65536 + b3 * 16777216
}

/// Decoding an encoded variable-length integer yields the value back, and
/// consumes exactly its bytes, whatever follows it.
proof fn lemma_varint_round_trip_at(n: nat, rest: Seq<u8>, limit: nat)
    requires
        varint_spec(n).len() <= limit,
    ensures
        varint_decode_at(varint_spec(n) + rest, limit) == Some((n, varint_spec(n).len())),
    decreases n,
{
    let e = varint_spec(n);
    if n < 128 {
        assert(e == seq![n as u8]);
        assert((e + rest)[0] == n as u8);
    } else {
        let first = (128 + (n % 128)) as u8;
        let tail = varint_spec(n / 128);
        assert(e == seq![first] + tail);
        assert((e + rest)[0] == first);
        assert((e + rest).skip(1) =~= tail + rest) by {
            assert(e.skip(1) =~= tail);
        }
        lemma_varint_round_trip_at(n / 128, rest, (limit - 1) as nat);
        assert(n % 128 + 128 * (n / 128) == n) by (nonlinear_arith);
        assert(e.len() == 1 + tail.len());
    }
}

/// The variable-length encoding of a 32-bit value takes at most five bytes.
proof fn lemma_varint32_len(n: nat)
    requires
        n <= 0xFFFF_FFFF,
    ensures
        1 <= varint_spec(n).len() <= 5,
{
    let n1 = n / 128;
    let n2 = n1 / 128;
    let n3 = n2 / 128;
    let n4 = n3 / 128;
    assert(n4 < 128);
    if n >= 128 {
        assert(varint_spec(n).len() == 1 + varint_spec(n1).len());
        if n1 >= 128 {
            assert(varint_spec(n1).len() == 1 + varint_spec(n2).len());
            if n2 >= 128 {
                assert(varint_spec(n2).len() == 1 + varint_spec(n3).len());
                if n3 >= 128 {
                    assert(varint_spec(n3).len() == 1 + varint_spec(n4).len());
                    assert(varint_spec(n4).len() == 1);
                }
            }
        }
    }
}

/// Decoding an encoded envelope collection yields the collection back.
proof fn lemma_keys_round_trip(keys: Seq<Seq<u8>>)
    requires
        forall|i: int| 0 <= i < keys.len() ==> #[trigger] keys[i].len() <= 0xFFFF_FFFF,
    ensures
        keys_decode_spec(keys_encode_spec(keys)) == Some(keys),
    decreases keys.len(),
{
    if keys.len() == 0 {
        assert(keys_encode_spec(keys) =~= Seq::<u8>::empty());
        assert(keys =~= Seq::<Seq<u8>>::empty());
    } else {
        let k0 = keys[0];
        let e_rest = keys_encode_spec(keys.skip(1));
        let b = keys_encode_spec(keys);
        let lenb = varint_spec(k0.len());
        assert(b == bytes_field_spec(TAG_ENCRYPTED_KEY, k0) + e_rest);
        lemma_varint32_len(k0.len());
        assert(b[0] == TAG_ENCRYPTED_KEY) by {
            assert(bytes_field_spec(TAG_ENCRYPTED_KEY, k0)[0] == TAG_ENCRYPTED_KEY);
        }
        assert(b.skip(1) =~= lenb + (k0 + e_rest));
        lemma_varint_round_trip_at(k0.len(), k0 + e_rest, 5);
        assert(varint32_decode_spec(b.skip(1)) == Some((k0.len() as u32, lenb.len())));
        let start = 1 + lenb.len();
        assert(b.len() == start + k0.len() + e_rest.len());
        assert(b.subrange(start as int, start as int + k0.len() as int) =~= k0);
        assert(b.skip(start as int + k0.len() as int) =~= e_rest);
        lemma_keys_round_trip(keys.skip(1));
        assert(seq![k0] + keys.skip(1) =~= keys);
    }
}

/// Header round trip: decoding an encoded header body yields the chunk size
/// and the envelope collection back, for any envelope collection whose
/// entries fit the wire format's 32-bit lengths.
pub proof fn lemma_header_round_trip(chunk_size: u32, keys: Seq<Seq<u8>>)
    requires
        forall|i: int| 0 <= i < keys.len() ==> #[trigger] keys[i].len() <= 0xFFFF_FFFF,
    ensures
        header_decode_spec(header_body_spec(chunk_size, keys)) == Some((chunk_size, keys)),
{
    let b = header_body_spec(chunk_size, keys);
    let csb = varint_spec(chunk_size as nat);
    let e_keys = keys_encode_spec(keys);
    assert(b[0] == TAG_CHUNK_SIZE);
    assert(b.skip(1) =~= csb + e_keys);
    lemma_varint32_len(chunk_size as nat);
    lemma_varint_round_trip_at(chunk_size as nat, e_keys, 5);
    assert(varint32_decode_spec(b.skip(1)) == Some((chunk_size, csb.len())));
    assert(b.skip(1 + csb.len() as int) =~= e_keys);
    lemma_keys_round_trip(keys);
}

/// Frame round trip: decoding a framed header yields the header back and
/// consumes the whole frame, whatever follows it.
pub proof fn lemma_frame_round_trip(chunk_size: u32, keys: Seq<Seq<u8>>, rest: Seq<u8>)
    requires
        forall|i: int| 0 <= i < keys.len() ==> #[trigger] keys[i].len() <= 0xFFFF_FFFF,
        header_body_spec(chunk_size, keys).len() <= 0xFFFF_FFFF,
    ensures
        frame_decode_spec(frame_spec(chunk_size, keys) + rest) == Some(
            ((chunk_size, keys), frame_spec(chunk_size, keys).len()),
        ),
{
    let body = header_body_spec(chunk_size, keys);
    let n = body.len() as u32;
    let f = frame_spec(chunk_size, keys) + rest;
    assert(f.subrange(0, 4) =~= u32_le_spec(n));
    lemma_u32_le_round_trip(n);
    assert(u32_le_decode_spec(f.subrange(0, 4)) == n);
    assert(f.subrange(4, 4 + body.len() as int) =~= body);
    lemma_header_round_trip(chunk_size, keys);
    assert(frame_spec(chunk_size, keys).len() == 4 + body.len());
}

/// The serialized form of a session key: its initialization value (field 1)
/// then its cipher key (field 2).
pub open spec fn aes_encode_spec(iv: Seq<u8>, key: Seq<u8>) -> Seq<u8> {
    bytes_field_spec(TAG_FIELD1_BYTES, iv) + bytes_field_spec(TAG_FIELD2_BYTES, key)
}

/// The serialized form of an `Encryption` record: nothing when it holds no
/// key, else the session key record as an embedded message in field 1.
pub open spec fn encryption_encode_spec(k: Option<(Seq<u8>, Seq<u8>)>) -> Seq<u8> {
    match k {
        None => Seq::<u8>::empty(),
        Some(p) => bytes_field_spec(TAG_FIELD1_BYTES, aes_encode_spec(p.0, p.1)),
    }
}

/// Decodes a session key record that fills `b` completely.
pub open spec fn aes_decode_spec(b: Seq<u8>) -> Option<(Seq<u8>, Seq<u8>)> {
    if b.len() == 0 || b[0] != TAG_FIELD1_BYTES {
        None
    } else {
        match varint32_decode_spec(b.skip(1)) {
            Some((l1, u1)) => {
                let p1 = 1 + u1;
                if p1 + l1 <= b.len() {
                    let iv = b.subrange(p1 as int, (p1 + l1) as int);
                    let c = b.skip((p1 + l1) as int);
                    if c.len() == 0 || c[0] != TAG_FIELD2_BYTES {
                        None
                    } else {
                        match varint32_decode_spec(c.skip(1)) {
                            Some((l2, u2)) => {
                                if 1 + u2 + l2 == c.len() {
                                    Some(
                                        (iv, c.subrange(1 + u2 as int, 1 + u2 as int + l2 as int)),
                                    )
                                } else {
                                    None
                                }
                            },
                            None => None,
                        }
                    }
                } else {
                    None
                }
            },
            None => None,
        }
    }
}

/// Decodes an `Encryption` record that fills `b` completely.
pub open spec fn encryption_decode_spec(b: Seq<u8>) -> Option<Option<(Seq<u8>, Seq<u8>)>> {
    if b.len() == 0 {
        Some(None)
    } else if b[0] != TAG_FIELD1_BYTES {
        None
    } else {
        match varint32_decode_spec(b.skip(1)) {
            Some((l, u)) => {
                if 1 + u + l == b.len() {
                    match aes_decode_spec(b.skip(1 + u as int)) {
                        Some(p) => Some(Some(p)),
                        None => None,
                    }
                } else {
                    None
                }
            },
            None => None,
        }
    }
}

/// Relies on openssl's `rand::rand_bytes`: fills a fresh buffer from the
/// process-wide cryptographically secure random source. Nothing is promised
/// of the contents beyond the length; buffers beyond a signed 32-bit count
/// would make the call panic, so the `requires` excludes them.
#[verifier::external_body]
fn rand_bytes_vec(len: usize) -> (r: Result<Vec<u8>, openssl::error::ErrorStack>)
    requires
        len <= 0x7FFF_FFFF,
    ensures
        r matches Ok(b) ==> b@.len() == len,
{
    let mut buf = vec![0u8; len];
    openssl::rand::rand_bytes(&mut buf)?;
    Ok(buf)
}

/// The ephemeral session key of one encryption operation: a 64-byte cipher
/// key and an 8-byte stream initialization value.
pub struct Aes256Siv {
    /// The stream initialization value, 8 bytes.
    pub iv: Vec<u8>,
    /// The cipher key, 64 bytes.
    pub key: Vec<u8>,
}

/// The session key variants an `Encryption` record can carry.
pub enum Key {
    Aes256Siv(Aes256Siv),
}

/// The record carried inside each asymmetric envelope: an optional session
/// key.
pub struct Encryption {
    /// The session key, if the record holds one.
    pub key: Option<Key>,
}

impl Aes256Siv {
    /// The fixed component lengths of a usable session key.
    pub open spec fn wf(&self) -> bool {
        self.iv@.len() == 8 && self.key@.len() == 64
    }

    /// Generates a fresh session key from the secure random source.
    pub fn new() -> (r: Result<Aes256Siv, Error>)
        ensures
            r matches Ok(k) ==> k.wf(),
            r matches Err(e) ==> e is CryptoFailure,
    {
        let iv = match rand_bytes_vec(8) {
            Ok(b) => b,
            Err(e) => {
                return Err(Error::CryptoFailure(e));
            },
        };
        let key = match rand_bytes_vec(64) {
            Ok(b) => b,
            Err(e) => {
                return Err(Error::CryptoFailure(e));
            },
        };
        Ok(Aes256Siv { iv, key })
    }

    /// Serializes the session key as an `Encryption` record holding it.
    pub fn encode(self) -> (r: Result<Vec<u8>, Error>)
        requires
            self.wf(),
        ensures
            r matches Ok(v) && v@ == encryption_encode_spec(Some((self.iv@, self.key@))),
    {
        Ok(encode_session(&self))
    }
}

/// Serializes a session key as an `Encryption` record, leaving the key with
/// the caller.
pub fn encode_session(k: &Aes256Siv) -> (r: Vec<u8>)
    requires
        k.wf(),
    ensures
        r@ == encryption_encode_spec(Some((k.iv@, k.key@))),
{
    let mut inner: Vec<u8> = Vec::new();
    write_bytes_field(&mut inner, TAG_FIELD1_BYTES, &k.iv);
    write_bytes_field(&mut inner, TAG_FIELD2_BYTES, &k.key);
    proof {
        assert(inner@ =~= aes_encode_spec(k.iv@, k.key@));
    }
    let mut out: Vec<u8> = Vec::new();
    write_bytes_field(&mut out, TAG_FIELD1_BYTES, &inner);
    proof {
        assert(out@ =~= encryption_encode_spec(Some((k.iv@, k.key@))));
    }
    out
}

impl Encryption {
    /// The initialization value and cipher key of the session key this
    /// record holds, if any.
    pub open spec fn session_view(&self) -> Option<(Seq<u8>, Seq<u8>)> {
        match self.key {
            Some(Key::Aes256Siv(k)) => Some((k.iv@, k.key@)),
            None => None,
        }
    }

    /// Parses an `Encryption` record, exactly as `encryption_decode_spec`
    /// describes.
    pub fn decode(input: &Vec<u8>) -> (r: Result<Encryption, Error>)
        ensures
            (match r {
                Ok(e) => encryption_decode_spec(input@) == Some(e.session_view()),
                Err(e) => encryption_decode_spec(input@) is None && e is DecodeFailure,
            }),
    {
        if input.len() == 0 {
            return Ok(Encryption { key: None });
        }
        if input[0] != TAG_FIELD1_BYTES {
            return Err(Error::DecodeFailure);
        }
        proof {
            assert(input@.skip(0) =~= input@);
        }
        let (l, u) = match read_varint32(input, 1) {
            Ok(p) => p,
            Err(_) => {
                return Err(Error::DecodeFailure);
            },
        };
        let lus = l as usize;
        if input.len() - 1 - u != lus {
            return Err(Error::DecodeFailure);
        }
        let inner = subvec(input, 1 + u, input.len());
        proof {
            assert(inner@ =~= input@.skip(1 + u as int));
        }
        match parse_aes(&inner) {
            Ok((iv, key)) => Ok(
                Encryption { key: Some(Key::Aes256Siv(Aes256Siv { iv, key })) },
            ),
            Err(_) => Err(Error::DecodeFailure),
        }
    }
}

/// Parses a session key record that fills `b` completely, exactly as
/// `aes_decode_spec` describes.
fn parse_aes(b: &Vec<u8>) -> (r: Result<(Vec<u8>, Vec<u8>), Error>)
    ensures
        (match r {
            Ok(p) => aes_decode_spec(b@) == Some((p.0@, p.1@)),
            Err(e) => aes_decode_spec(b@) is None && e is DecodeFailure,
        }),
{
    if b.len() == 0 {
        return Err(Error::DecodeFailure);
    }
    if b[0] != TAG_FIELD1_BYTES {
        return Err(Error::DecodeFailure);
    }
    proof {
        assert(b@.skip(0) =~= b@);
    }
    let (l1, u1) = match read_varint32(b, 1) {
        Ok(p) => p,
        Err(_) => {
            return Err(Error::DecodeFailure);
        },
    };
    let p1 = 1 + u1;
    let l1u = l1 as usize;
    if l1u > b.len() - p1 {
        return Err(Error::DecodeFailure);
    }
    let iv = subvec(b, p1, p1 + l1u);
    let c_start = p1 + l1u;
    let ghost c = b@.skip(c_start as int);
    if c_start >= b.len() {
        return Err(Error::DecodeFailure);
    }
    if b[c_start] != TAG_FIELD2_BYTES {
        proof {
            assert(c[0] == b@[c_start as int]);
        }
        return Err(Error::DecodeFailure);
    }
    proof {
        assert(c[0] == b@[c_start as int]);
        assert(c.skip(1) =~= b@.skip(c_start as int + 1));
    }
    let (l2, u2) = match read_varint32(b, c_start + 1) {
        Ok(p) => p,
        Err(_) => {
            return Err(Error::DecodeFailure);
        },
    };
    let l2u = l2 as usize;
    if b.len() - (c_start + 1 + u2) != l2u {
        return Err(Error::DecodeFailure);
    }
    let key = subvec(b, c_start + 1 + u2, b.len());
    proof {
        assert(c.subrange(1 + u2 as int, 1 + u2 as int + l2 as int) =~= b@.subrange(
            c_start as int + 1 + u2 as int,
            b@.len() as int,
        ));
    }
    Ok((iv, key))
}

/// Session record round trip: decoding an encoded session key yields its
/// initialization value and cipher key back.
#[verifier::rlimit(50)]
pub proof fn lemma_session_round_trip(iv: Seq<u8>, key: Seq<u8>)
    requires
        iv.len() + key.len() + 12 <= 0xFFFF_FFFF,
    ensures
        encryption_decode_spec(encryption_encode_spec(Some((iv, key)))) == Some(
            Some((iv, key)),
        ),
{
    let f_iv = bytes_field_spec(TAG_FIELD1_BYTES, iv);
    let f_key = bytes_field_spec(TAG_FIELD2_BYTES, key);
    let inner = aes_encode_spec(iv, key);
    let b = encryption_encode_spec(Some((iv, key)));
    lemma_varint32_len(iv.len());
    lemma_varint32_len(key.len());
    assert(inner.len() <= 0xFFFF_FFFF);
    lemma_varint32_len(inner.len());
    let lenb = varint_spec(inner.len());
    assert(b == seq![TAG_FIELD1_BYTES] + lenb + inner);
    assert(b[0] == TAG_FIELD1_BYTES);
    assert(b.skip(1) =~= lenb + inner);
    lemma_varint_round_trip_at(inner.len(), inner, 5);
    assert(varint32_decode_spec(b.skip(1)) == Some((inner.len() as u32, lenb.len())));
    assert(b.len() == 1 + lenb.len() + inner.len());
    assert(b.skip(1 + lenb.len() as int) =~= inner);
    // the inner session record decodes to its two components
    let l_iv = varint_spec(iv.len());
    let l_key = varint_spec(key.len());
    assert(inner[0] == TAG_FIELD1_BYTES) by {
        assert(f_iv[0] == TAG_FIELD1_BYTES);
    }
    assert(inner.skip(1) =~= l_iv + (iv + f_key));
    lemma_varint_round_trip_at(iv.len(), iv + f_key, 5);
    assert(varint32_decode_spec(inner.skip(1)) == Some((iv.len() as u32, l_iv.len())));
    let p1 = 1 + l_iv.len();
    assert(inner.len() == p1 + iv.len() + f_key.len());
    assert(inner.subrange(p1 as int, (p1 + iv.len()) as int) =~= iv);
    let c = inner.skip((p1 + iv.len()) as int);
    assert(c =~= f_key);
    assert(c[0] == TAG_FIELD2_BYTES);
    assert(c.skip(1) =~= l_key + key) by {
        assert(f_key.skip(1) =~= l_key + (key + Seq::<u8>::empty()));
        assert(l_key + (key + Seq::<u8>::empty()) =~= l_key + key);
    }
    lemma_varint_round_trip_at(key.len(), key, 5);
    assert(varint32_decode_spec(c.skip(1)) == Some((key.len() as u32, l_key.len())));
    assert(1 + l_key.len() + key.len() == c.len());
    assert(c.subrange(1 + l_key.len() as int, 1 + l_key.len() as int + key.len() as int)
        =~= key);
    assert(aes_decode_spec(inner) == Some((iv, key)));
}

/// Four little-endian bytes of a value decode to the value.
proof fn lemma_u32_le_round_trip(n: u32)
    ensures
        u32_le_decode_spec(u32_le_spec(n)) == n,
{
    let s = u32_le_spec(n);
    assert(s[0] == (n % 256) as u8);
    assert(s[1] == ((n / 256) % 256) as u8);
    assert(s[2] == ((n / 65536) % 256) as u8);
    assert(s[3] == ((n / 16777216) % 256) as u8);
    assert(n % 256 + ((n / 256) % 256) * 256 + ((n / 65536) % 256) * 65536 + ((n / 16777216) % 256)
        * 16777216 == n) by (bit_vector);
}

/// Appending one envelope to the collection appends its field to the
/// encoding.
proof fn lemma_keys_encode_push(keys: Seq<Seq<u8>>, x: Seq<u8>)
    ensures
        keys_encode_spec(keys.push(x)) == keys_encode_spec(keys) + bytes_field_spec(
            TAG_ENCRYPTED_KEY,
            x,
        ),
    decreases keys.len(),
{
    if keys.len() == 0 {
        assert(keys.push(x).skip(1) =~= Seq::<Seq<u8>>::empty());
        assert(keys_encode_spec(keys.push(x)) == bytes_field_spec(TAG_ENCRYPTED_KEY, x)
            + keys_encode_spec(Seq::<Seq<u8>>::empty()));
        assert(keys_encode_spec(keys.push(x)) =~= keys_encode_spec(keys) + bytes_field_spec(
            TAG_ENCRYPTED_KEY,
            x,
        ));
    } else {
        assert(keys.push(x).skip(1) =~= keys.skip(1).push(x));
        lemma_keys_encode_push(keys.skip(1), x);
        assert(keys.push(x)[0] == keys[0]);
        assert(keys_encode_spec(keys.push(x)) == bytes_field_spec(TAG_ENCRYPTED_KEY, keys[0])
            + (keys_encode_spec(keys.skip(1)) + bytes_field_spec(TAG_ENCRYPTED_KEY, x)));
        assert(bytes_field_spec(TAG_ENCRYPTED_KEY, keys[0]) + (keys_encode_spec(keys.skip(1))
            + bytes_field_spec(TAG_ENCRYPTED_KEY, x)) =~= (bytes_field_spec(
            TAG_ENCRYPTED_KEY,
            keys[0],
        ) + keys_encode_spec(keys.skip(1))) + bytes_field_spec(TAG_ENCRYPTED_KEY, x));
    }
}

} // verus!
