use ghshare::asymm::Encryptor;
use ghshare::errors::Error;
use ghshare::github::{is_otp_required, GithubPublicKey};
use ghshare::header::{encode_session, frame_body_len, Aes256Siv, Header};
use ghshare::run::{prepare_encrypt, recover_session, run_decrypt, run_encrypt, run_encrypt_no_header};
use ghshare::symm::{encrypt_stream, open_chunk, seal_chunk, MESSAGE_SIZE, TAG_SIZE};

fn ssh_mpint(b: &[u8]) -> Vec<u8> {
    let mut start = 0;
    while start < b.len() && b[start] == 0 {
        start += 1;
    }
    let mut body = Vec::new();
    if start == b.len() || b[start] & 0x80 != 0 {
        body.push(0);
    }
    body.extend_from_slice(&b[start..]);
    let mut out = (body.len() as u32).to_be_bytes().to_vec();
    out.extend_from_slice(&body);
    out
}

fn ssh_rsa_line(rsa: &openssl::rsa::Rsa<openssl::pkey::Private>) -> String {
    let mut blob = Vec::new();
    blob.extend_from_slice(&7u32.to_be_bytes());
    blob.extend_from_slice(b"ssh-rsa");
    blob.extend_from_slice(&ssh_mpint(&rsa.e().to_vec()));
    blob.extend_from_slice(&ssh_mpint(&rsa.n().to_vec()));
    format!("ssh-rsa {}", openssl::base64::encode_block(&blob))
}

fn directory_record(rsa: &openssl::rsa::Rsa<openssl::pkey::Private>, id: u64) -> GithubPublicKey {
    GithubPublicKey { id, key: ssh_rsa_line(rsa) }
}

#[test]
fn test_end_to_end_round_trip() {
    let rsa = openssl::rsa::Rsa::generate(2048).unwrap();
    let keys = vec![directory_record(&rsa, 1)];
    let cleartext = b"Hello, World!".to_vec();

    let encrypted = run_encrypt(&keys, &cleartext, false).unwrap();
    assert!(encrypted != cleartext);

    let pem = rsa.private_key_to_pem().unwrap();
    let decrypted = run_decrypt(&pem, &encrypted, None, false).unwrap();
    assert_eq!(decrypted, cleartext);
}

#[test]
fn test_end_to_end_small_mode() {
    let rsa = openssl::rsa::Rsa::generate(2048).unwrap();
    let keys = vec![directory_record(&rsa, 1)];
    let cleartext = b"Hello, World!".to_vec();

    let encrypted = run_encrypt(&keys, &cleartext, true).unwrap();
    let pem = rsa.private_key_to_pem().unwrap();
    let decrypted = run_decrypt(&pem, &encrypted, None, true).unwrap();
    assert_eq!(decrypted, cleartext);
}

#[test]
fn test_example_scenario_chunk_size_four() {
    // encrypt thirteen bytes at chunk size four against one recipient:
    // a header with one envelope, then three full and one short chunk
    let rsa = openssl::rsa::Rsa::generate(2048).unwrap();
    let recipient = directory_record(&rsa, 7).to_public_key().unwrap();
    let cleartext = b"Hello, World!".to_vec();

    let session = Aes256Siv::new().unwrap();
    let session_encoded = encode_session(&session);
    let envelope = recipient.encrypt(&session_encoded).unwrap();
    let header = Header { encrypted_keys: vec![envelope], chunk_size: 4 };
    let mut data = header.encode_length_delimited().unwrap();
    let frame_len = data.len();
    let stream = encrypt_stream(&session, &cleartext, 4).unwrap();
    data.extend_from_slice(&stream);

    let (decoded, consumed) = Header::decode_length_delimited(&data).unwrap();
    assert_eq!(consumed, frame_len);
    assert_eq!(decoded.chunk_size, 4);
    assert_eq!(decoded.encrypted_keys.len(), 1);
    assert_eq!(data.len() - frame_len, 3 * (4 + TAG_SIZE) + 1 + TAG_SIZE);

    let pem = rsa.private_key_to_pem().unwrap();
    let decrypted = run_decrypt(&pem, &data, None, false).unwrap();
    assert_eq!(decrypted, cleartext);
}

#[test]
fn test_unusable_keys_are_skipped_silently() {
    // one unparseable record, one unsupported algorithm, one usable key:
    // the flow succeeds through the usable one
    let rsa = openssl::rsa::Rsa::generate(2048).unwrap();
    let keys = vec![
        GithubPublicKey { id: 1, key: "not a key".to_string() },
        GithubPublicKey {
            id: 2,
            key: "ssh-ed25519 AAAAC3NzaC1lZDI1NTE5AAAAIAAAAAAAAAAAAAAAAAAAAAAAAAAAAAAAAAAAAAAAAAAA"
                .to_string(),
        },
        directory_record(&rsa, 3),
    ];
    let cleartext = b"Hello, World!".to_vec();
    let encrypted = run_encrypt(&keys, &cleartext, false).unwrap();
    let pem = rsa.private_key_to_pem().unwrap();
    let decrypted = run_decrypt(&pem, &encrypted, None, false).unwrap();
    assert_eq!(decrypted, cleartext);
}

#[test]
fn test_no_usable_recipient_key() {
    let keys = vec![GithubPublicKey { id: 1, key: "not a key".to_string() }];
    let r = run_encrypt(&keys, &b"Hello".to_vec(), false);
    assert!(matches!(r, Err(Error::NoUsableRecipientKey)));
    let r = run_encrypt_no_header(&vec![], &b"Hello".to_vec());
    assert!(matches!(r, Err(Error::NoUsableRecipientKey)));
}

#[test]
fn test_unsupported_recipient_record_yields_unsupported() {
    let record = GithubPublicKey {
        id: 9,
        key: "ssh-ed25519 AAAAC3NzaC1lZDI1NTE5AAAAIAAAAAAAAAAAAAAAAAAAAAAAAAAAAAAAAAAAAAAAAAAA"
            .to_string(),
    };
    let pk = record.to_public_key().unwrap();
    let r = pk.encrypt(&b"data".to_vec());
    assert!(matches!(r, Err(Error::KeyUnsupported)));
}

#[test]
fn test_decrypt_garbage_is_decode_failure() {
    let rsa = openssl::rsa::Rsa::generate(2048).unwrap();
    let pem = rsa.private_key_to_pem().unwrap();
    let r = run_decrypt(&pem, &vec![1, 2, 3], None, false);
    assert!(matches!(r, Err(Error::DecodeFailure)));
}

#[test]
fn test_zero_chunk_size_is_decode_failure() {
    // a header demanding chunk size zero cannot describe a stream
    let rsa = openssl::rsa::Rsa::generate(2048).unwrap();
    let recipient = directory_record(&rsa, 7).to_public_key().unwrap();
    let session = Aes256Siv::new().unwrap();
    let session_encoded = encode_session(&session);
    let envelope = recipient.encrypt(&session_encoded).unwrap();
    let header = Header { encrypted_keys: vec![envelope], chunk_size: 0 };
    let data = header.encode_length_delimited().unwrap();
    let pem = rsa.private_key_to_pem().unwrap();
    let r = run_decrypt(&pem, &data, None, false);
    assert!(matches!(r, Err(Error::DecodeFailure)));
}

#[test]
fn test_otp_required_decision() {
    let challenge = b"required; sms".to_vec();
    let other = b"nope".to_vec();
    assert!(is_otp_required(401, Some(&challenge)));
    assert!(!is_otp_required(200, Some(&challenge)));
    assert!(!is_otp_required(500, Some(&challenge)));
    assert!(!is_otp_required(401, Some(&other)));
    assert!(!is_otp_required(401, None));
    let exact = b"required".to_vec();
    assert!(is_otp_required(404, Some(&exact)));
    let short = b"requir".to_vec();
    assert!(!is_otp_required(404, Some(&short)));
}

#[test]
fn test_chunked_seal_matches_stream() {
    // sealing chunk by chunk at successive positions yields byte-for-byte
    // the same stream as the whole-buffer function
    let key = Aes256Siv::new().unwrap();
    let data = b"Hello, World!".to_vec();
    let stream = encrypt_stream(&key, &data, 4).unwrap();

    let mut manual = Vec::new();
    let mut pos: u32 = 0;
    let mut off = 0;
    while data.len() - off >= 4 {
        let sealed = seal_chunk(&key, pos, false, &data[off..off + 4].to_vec()).unwrap();
        manual.extend_from_slice(&sealed);
        off += 4;
        pos += 1;
    }
    let sealed = seal_chunk(&key, pos, true, &data[off..].to_vec()).unwrap();
    manual.extend_from_slice(&sealed);
    assert_eq!(manual, stream);

    // and chunks open back individually, bound to their position
    let m0 = open_chunk(&key, 0, false, &stream[0..20].to_vec()).unwrap();
    assert_eq!(m0, b"Hell".to_vec());
    let wrong_pos = open_chunk(&key, 1, false, &stream[0..20].to_vec());
    assert!(matches!(wrong_pos, Err(Error::AuthenticationFailure)));
    let wrong_flag = open_chunk(&key, 0, true, &stream[0..20].to_vec());
    assert!(matches!(wrong_flag, Err(Error::AuthenticationFailure)));
}

#[test]
fn test_prepare_and_recover_session() {
    let rsa = openssl::rsa::Rsa::generate(2048).unwrap();
    let keys = vec![directory_record(&rsa, 5)];
    let (session, framed) = prepare_encrypt(&keys).unwrap();

    assert_eq!(frame_body_len(&framed[0..4].to_vec()) as usize, framed.len() - 4);

    let (header, consumed) = Header::decode_length_delimited(&framed).unwrap();
    assert_eq!(consumed, framed.len());
    assert_eq!(header.chunk_size, MESSAGE_SIZE as u32);
    assert_eq!(header.encrypted_keys.len(), 1);

    let pem = rsa.private_key_to_pem().unwrap();
    let (recovered, chunk) = recover_session(&pem, &header, None).unwrap();
    assert_eq!(chunk, MESSAGE_SIZE);
    assert_eq!(recovered.iv, session.iv);
    assert_eq!(recovered.key, session.key);
}

#[test]
fn test_passphrase_ignored_for_unencrypted_key() {
    // the passphrase-less decode is attempted first, so a supplied
    // passphrase does not disturb an unencrypted key
    let rsa = openssl::rsa::Rsa::generate(2048).unwrap();
    let keys = vec![directory_record(&rsa, 1)];
    let cleartext = b"Hello, World!".to_vec();
    let encrypted = run_encrypt(&keys, &cleartext, false).unwrap();
    let pem = rsa.private_key_to_pem().unwrap();
    let decrypted = run_decrypt(&pem, &encrypted, Some(&b"unneeded".to_vec()), false).unwrap();
    assert_eq!(decrypted, cleartext);
}

#[test]
fn test_non_ascii_record_is_decode_failure() {
    // key records are ASCII by format; anything else is rejected before
    // the parser sees it
    let record = GithubPublicKey { id: 11, key: "ssh-rsa \u{00e9}\u{00e9}".to_string() };
    let r = record.to_public_key();
    assert!(matches!(r, Err(Error::DecodeFailure)));
}

#[test]
fn test_payload_beyond_capacity_has_no_usable_key() {
    // a 2048-bit key wraps at most 245 bytes under PKCS#1; a longer
    // payload leaves the recipient without a usable key in small mode
    let rsa = openssl::rsa::Rsa::generate(2048).unwrap();
    let keys = vec![directory_record(&rsa, 1)];
    let big = vec![7u8; 300];
    let r = run_encrypt_no_header(&keys, &big);
    assert!(matches!(r, Err(Error::NoUsableRecipientKey)));
}

#[test]
fn test_prepare_encrypt_no_usable_records() {
    let keys = vec![
        GithubPublicKey { id: 1, key: "not a key".to_string() },
        GithubPublicKey {
            id: 2,
            key: "ssh-ed25519 AAAAC3NzaC1lZDI1NTE5AAAAIAAAAAAAAAAAAAAAAAAAAAAAAAAAAAAAAAAAAAAAAAAA"
                .to_string(),
        },
    ];
    let r = prepare_encrypt(&keys);
    assert!(matches!(r, Err(Error::NoUsableRecipientKey)));
}
