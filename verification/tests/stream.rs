use ghshare::errors::Error;
use ghshare::header::Aes256Siv;
use ghshare::symm::{decrypt_stream, encrypt_stream, MESSAGE_SIZE, TAG_SIZE};

fn test_encrypt_decrypt(cleartext: &str, message_size: usize) {
    let key = Aes256Siv::new().unwrap();

    let input: Vec<u8> = cleartext.as_bytes().to_vec();
    let encrypted = encrypt_stream(&key, &input, message_size).unwrap();
    let decrypted = decrypt_stream(&key, &encrypted, message_size).unwrap();
    let decrypted = String::from_utf8(decrypted).unwrap();

    assert!(cleartext == decrypted);
}

#[test]
fn test_encrypt_stream_single_message() {
    test_encrypt_decrypt("Hello, World!", MESSAGE_SIZE);
}

#[test]
fn test_encrypt_stream_multi_message() {
    test_encrypt_decrypt("Hello, World!", 4);
}

#[test]
fn test_encrypt_stream_multi_message_exact() {
    test_encrypt_decrypt("Hello, World", 4);
}

#[test]
fn test_encrypt_stream_partial_messages() {
    let key = Aes256Siv::new().unwrap();
    let cleartext = "Hello, World!";

    // feed the plaintext in three-byte increments, as a slow source would
    let data = cleartext.as_bytes();
    let mut gathered: Vec<u8> = Vec::new();
    let mut pos = 0;
    while pos < data.len() {
        let end = (pos + 3).min(data.len());
        gathered.extend_from_slice(&data[pos..end]);
        pos = end;
    }

    let encrypted = encrypt_stream(&key, &gathered, 8).unwrap();
    let one_shot = encrypt_stream(&key, &data.to_vec(), 8).unwrap();
    assert_eq!(encrypted, one_shot);

    let decrypted = decrypt_stream(&key, &encrypted, 8).unwrap();
    let decrypted = String::from_utf8(decrypted).unwrap();

    assert!(cleartext == decrypted);
}

#[test]
fn test_encrypt_stream_empty_payload() {
    // an empty stream still carries exactly one empty last chunk
    let key = Aes256Siv::new().unwrap();
    let encrypted = encrypt_stream(&key, &Vec::new(), 4).unwrap();
    assert_eq!(encrypted.len(), TAG_SIZE);
    let decrypted = decrypt_stream(&key, &encrypted, 4).unwrap();
    assert!(decrypted.is_empty());
}

#[test]
fn test_encrypt_stream_chunk_layout() {
    // thirteen bytes at chunk size four: three full chunks and a short last
    let key = Aes256Siv::new().unwrap();
    let input = b"Hello, World!".to_vec();
    let encrypted = encrypt_stream(&key, &input, 4).unwrap();
    assert_eq!(encrypted.len(), 3 * (4 + TAG_SIZE) + 1 + TAG_SIZE);
}

#[test]
fn test_tamper_detection_every_byte() {
    let key = Aes256Siv::new().unwrap();
    let input = b"Hello, World!".to_vec();
    let encrypted = encrypt_stream(&key, &input, 4).unwrap();
    for i in 0..encrypted.len() {
        let mut tampered = encrypted.clone();
        tampered[i] ^= 1;
        let r = decrypt_stream(&key, &tampered, 4);
        assert!(matches!(r, Err(Error::AuthenticationFailure)));
    }
}

#[test]
fn test_truncated_stream_fails() {
    // dropping the last chunk must be detected, not returned as success
    let key = Aes256Siv::new().unwrap();
    let input = b"Hello, World!".to_vec();
    let encrypted = encrypt_stream(&key, &input, 4).unwrap();
    let truncated = encrypted[..encrypted.len() - (1 + TAG_SIZE)].to_vec();
    let r = decrypt_stream(&key, &truncated, 4);
    assert!(matches!(r, Err(Error::AuthenticationFailure)));
}

#[test]
fn test_reordered_chunks_fail() {
    let key = Aes256Siv::new().unwrap();
    let input = b"aaaabbbb".to_vec();
    let encrypted = encrypt_stream(&key, &input, 4).unwrap();
    let block = 4 + TAG_SIZE;
    let mut reordered = Vec::new();
    reordered.extend_from_slice(&encrypted[block..2 * block]);
    reordered.extend_from_slice(&encrypted[0..block]);
    reordered.extend_from_slice(&encrypted[2 * block..]);
    let r = decrypt_stream(&key, &reordered, 4);
    assert!(matches!(r, Err(Error::AuthenticationFailure)));
}

#[test]
fn test_wrong_key_fails() {
    let key = Aes256Siv::new().unwrap();
    let other = Aes256Siv::new().unwrap();
    let input = b"Hello, World!".to_vec();
    let encrypted = encrypt_stream(&key, &input, 4).unwrap();
    let r = decrypt_stream(&other, &encrypted, 4);
    assert!(matches!(r, Err(Error::AuthenticationFailure)));
}

#[test]
fn test_round_trip_near_chunk_multiples() {
    // one byte short of and one byte past a chunk multiple, and exactly one
    test_encrypt_decrypt("Hello, World!", 7);
    test_encrypt_decrypt("Hello, World!", 14);
    test_encrypt_decrypt("Hello, World!", 13);
    test_encrypt_decrypt("Hello, World!", 12);
    test_encrypt_decrypt("H", 1);
}

#[test]
fn test_short_garbage_fails() {
    let key = Aes256Siv::new().unwrap();
    let r = decrypt_stream(&key, &vec![1, 2, 3, 4, 5], 4);
    assert!(matches!(r, Err(Error::AuthenticationFailure)));
}
