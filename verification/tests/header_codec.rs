use ghshare::errors::Error;
use ghshare::header::{Aes256Siv, Encryption, Header, Key};

fn round_trip(chunk_size: u32, keys: Vec<Vec<u8>>) {
    let header = Header { encrypted_keys: keys.clone(), chunk_size };
    let framed = header.encode_length_delimited().unwrap();
    let (decoded, consumed) = Header::decode_length_delimited(&framed).unwrap();
    assert_eq!(consumed, framed.len());
    assert_eq!(decoded.chunk_size, chunk_size);
    assert_eq!(decoded.encrypted_keys, keys);
}

#[test]
fn test_header_round_trip_no_envelopes() {
    round_trip(0, vec![]);
    round_trip(u32::MAX, vec![]);
}

#[test]
fn test_header_round_trip_one_envelope() {
    round_trip(4, vec![vec![9, 8, 7]]);
}

#[test]
fn test_header_round_trip_many_envelopes() {
    let mut keys = Vec::new();
    for i in 0..40u32 {
        let mut k = Vec::new();
        for j in 0..(i * 7 % 300) {
            k.push((i + j) as u8);
        }
        keys.push(k);
    }
    round_trip(8 * 1024 - 16, keys);
}

#[test]
fn test_header_exact_bytes() {
    let header = Header { encrypted_keys: vec![vec![1, 2, 3]], chunk_size: 5 };
    let framed = header.encode_length_delimited().unwrap();
    // length prefix 7, then: chunk-size field, envelope field
    assert_eq!(framed, vec![7, 0, 0, 0, 0x08, 5, 0x12, 3, 1, 2, 3]);
}

#[test]
fn test_header_varint_chunk_size_bytes() {
    let header = Header { encrypted_keys: vec![], chunk_size: 300 };
    let framed = header.encode_length_delimited().unwrap();
    // 300 = 0b10_0101100: two varint bytes, least significant group first
    assert_eq!(framed, vec![3, 0, 0, 0, 0x08, 0xAC, 0x02]);
}

#[test]
fn test_header_trailing_bytes_ignored() {
    let header = Header { encrypted_keys: vec![vec![5; 10]], chunk_size: 16 };
    let mut framed = header.encode_length_delimited().unwrap();
    let frame_len = framed.len();
    framed.extend_from_slice(&[0xDE, 0xAD, 0xBE, 0xEF]);
    let (decoded, consumed) = Header::decode_length_delimited(&framed).unwrap();
    assert_eq!(consumed, frame_len);
    assert_eq!(decoded.encrypted_keys, vec![vec![5; 10]]);
}

#[test]
fn test_header_short_body_is_decode_failure() {
    // the length prefix promises more bytes than follow
    let header = Header { encrypted_keys: vec![vec![1, 2, 3]], chunk_size: 5 };
    let framed = header.encode_length_delimited().unwrap();
    let short = framed[..framed.len() - 1].to_vec();
    assert!(matches!(
        Header::decode_length_delimited(&short),
        Err(Error::DecodeFailure)
    ));
}

#[test]
fn test_header_garbage_is_decode_failure() {
    let garbage = vec![3, 0, 0, 0, 0xFF, 0xFF, 0xFF];
    assert!(matches!(
        Header::decode_length_delimited(&garbage),
        Err(Error::DecodeFailure)
    ));
}

#[test]
fn test_session_key_round_trip() {
    let key = Aes256Siv::new().unwrap();
    let iv = key.iv.clone();
    let cipher_key = key.key.clone();
    let encoded = key.encode().unwrap();
    let decoded = Encryption::decode(&encoded).unwrap();
    match decoded.key {
        Some(Key::Aes256Siv(k)) => {
            assert_eq!(k.iv, iv);
            assert_eq!(k.key, cipher_key);
        },
        None => panic!("decoded record holds no key"),
    }
}

#[test]
fn test_session_key_exact_bytes() {
    let key = Aes256Siv { iv: vec![1; 8], key: vec![2; 64] };
    let encoded = key.encode().unwrap();
    let mut expected = vec![0x0A, 76, 0x0A, 8];
    expected.extend_from_slice(&[1; 8]);
    expected.extend_from_slice(&[0x12, 64]);
    expected.extend_from_slice(&[2; 64]);
    assert_eq!(encoded, expected);
}

#[test]
fn test_session_key_fresh_randomness() {
    // two generated keys must differ; equal draws would mean the random
    // source was never consulted
    let a = Aes256Siv::new().unwrap();
    let b = Aes256Siv::new().unwrap();
    assert_eq!(a.iv.len(), 8);
    assert_eq!(a.key.len(), 64);
    assert!(a.key != b.key);
}

#[test]
fn test_empty_encryption_record_decodes_to_none() {
    let decoded = Encryption::decode(&Vec::new()).unwrap();
    assert!(decoded.key.is_none());
}

#[test]
fn test_malformed_encryption_record_fails() {
    let r = Encryption::decode(&vec![0x0A, 5, 1, 2]);
    assert!(matches!(r, Err(Error::DecodeFailure)));
}
