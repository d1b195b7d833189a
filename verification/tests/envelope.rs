use ghshare::asymm::{decrypt_data, decrypt_key, Encryptor, KeyData, PublicKey};
use ghshare::errors::Error;

fn generate_rsa() -> openssl::rsa::Rsa<openssl::pkey::Private> {
    openssl::rsa::Rsa::generate(2048).unwrap()
}

fn public_key_of(rsa: &openssl::rsa::Rsa<openssl::pkey::Private>) -> PublicKey {
    PublicKey {
        data: KeyData::Rsa {
            exponent: rsa.e().to_vec(),
            modulus: rsa.n().to_vec(),
        },
    }
}

#[test]
fn test_encrypt_decrypt() {
    let rsa = generate_rsa();
    let private_key = rsa.private_key_to_pem().unwrap();

    let public_key = public_key_of(&rsa);
    let cleartext = "Hello, World!";
    let ciphertext = public_key.encrypt(&cleartext.as_bytes().to_vec()).unwrap();
    let ciphertexts = vec![ciphertext];

    let key = decrypt_key(&private_key, &ciphertexts, None).unwrap();
    let plaintext = String::from_utf8(key).unwrap();

    assert!(cleartext == plaintext);
}

#[test]
fn test_wrap_expands_ciphertext() {
    let rsa = generate_rsa();
    let data = b"short payload".to_vec();
    let c = public_key_of(&rsa).encrypt(&data).unwrap();
    assert!(c.len() > data.len());
}

#[test]
fn test_unsupported_key_type_is_rejected() {
    // a non-RSA record must fail with the named unsupported-key error and
    // produce no envelope at all
    let pk = PublicKey { data: KeyData::Unsupported };
    let r = pk.encrypt(&b"Hello, World!".to_vec());
    assert!(matches!(r, Err(Error::KeyUnsupported)));
}

#[test]
fn test_multi_recipient_unwrap() {
    // a secret wrapped for three keys is recoverable by each holder, with
    // the other envelopes tried first
    let keys: Vec<_> = (0..3).map(|_| generate_rsa()).collect();
    let secret = b"the session key".to_vec();
    let envelopes: Vec<Vec<u8>> = keys
        .iter()
        .map(|k| public_key_of(k).encrypt(&secret).unwrap())
        .collect();

    for k in &keys {
        let pem = k.private_key_to_pem().unwrap();
        let recovered = decrypt_key(&pem, &envelopes, None).unwrap();
        assert_eq!(recovered, secret);
    }
}

#[test]
fn test_empty_envelope_set_is_no_usable_key() {
    let rsa = generate_rsa();
    let pem = rsa.private_key_to_pem().unwrap();
    let r = decrypt_key(&pem, &vec![], None);
    assert!(matches!(r, Err(Error::NoUsableKey)));
}

#[test]
fn test_foreign_envelopes_report_crypto_failure() {
    // when no envelope was wrapped for this key, the last underlying
    // decryption error surfaces, not a generic not-found
    let rsa = generate_rsa();
    let other = generate_rsa();
    let secret = b"the session key".to_vec();
    let envelopes = vec![public_key_of(&other).encrypt(&secret).unwrap()];
    let pem = rsa.private_key_to_pem().unwrap();
    let r = decrypt_key(&pem, &envelopes, None);
    assert!(matches!(r, Err(Error::CryptoFailure(_))));
}

#[test]
fn test_encrypted_pem_requires_passphrase() {
    let rsa = generate_rsa();
    let pem = rsa
        .private_key_to_pem_passphrase(openssl::symm::Cipher::aes_256_cbc(), b"opensesame")
        .unwrap();
    let secret = b"tucked away".to_vec();
    let envelope = public_key_of(&rsa).encrypt(&secret).unwrap();

    let r = decrypt_data(&pem, &envelope, None);
    assert!(matches!(r, Err(Error::KeyEncrypted)));

    let recovered = decrypt_data(&pem, &envelope, Some(&b"opensesame".to_vec())).unwrap();
    assert_eq!(recovered, secret);
}

#[test]
fn test_wrong_passphrase_is_decode_failure() {
    let rsa = generate_rsa();
    let pem = rsa
        .private_key_to_pem_passphrase(openssl::symm::Cipher::aes_256_cbc(), b"opensesame")
        .unwrap();
    let secret = b"tucked away".to_vec();
    let envelope = public_key_of(&rsa).encrypt(&secret).unwrap();
    let r = decrypt_data(&pem, &envelope, Some(&b"wrong".to_vec()));
    assert!(matches!(r, Err(Error::DecodeFailure)));
}

#[test]
fn test_corrupt_key_is_decode_failure() {
    let blob = b"not a key at all".to_vec();
    let r = decrypt_data(&blob, &vec![0u8; 16], None);
    assert!(matches!(r, Err(Error::DecodeFailure)));
}

fn openssh_container_of(rsa: &openssl::rsa::Rsa<openssl::pkey::Private>) -> Vec<u8> {
    let kp = ssh_key::private::RsaKeypair {
        public: ssh_key::public::RsaPublicKey {
            e: ssh_key::Mpint::from_bytes(&rsa.e().to_vec()).unwrap(),
            n: ssh_key::Mpint::from_bytes(&rsa.n().to_vec()).unwrap(),
        },
        private: ssh_key::private::RsaPrivateKey {
            d: ssh_key::Mpint::from_bytes(&rsa.d().to_vec()).unwrap(),
            iqmp: ssh_key::Mpint::from_bytes(&rsa.iqmp().unwrap().to_vec()).unwrap(),
            p: ssh_key::Mpint::from_bytes(&rsa.p().unwrap().to_vec()).unwrap(),
            q: ssh_key::Mpint::from_bytes(&rsa.q().unwrap().to_vec()).unwrap(),
        },
    };
    let key = ssh_key::PrivateKey::new(
        ssh_key::private::KeypairData::Rsa(kp),
        "round trip",
    )
    .unwrap();
    key.to_openssh(ssh_key::LineEnding::LF).unwrap().as_bytes().to_vec()
}

#[test]
fn test_openssh_container_unwrap() {
    let rsa = generate_rsa();
    let container = openssh_container_of(&rsa);
    let secret = b"the session key".to_vec();
    let envelopes = vec![public_key_of(&rsa).encrypt(&secret).unwrap()];
    let recovered = decrypt_key(&container, &envelopes, None).unwrap();
    assert_eq!(recovered, secret);
}

#[test]
fn test_openssh_container_non_rsa_is_unsupported() {
    let kp = ssh_key::private::Ed25519Keypair::from_bytes(&[7u8; 64]).unwrap();
    let key = ssh_key::PrivateKey::new(
        ssh_key::private::KeypairData::Ed25519(kp),
        "not rsa",
    )
    .unwrap();
    let container = key
        .to_openssh(ssh_key::LineEnding::LF)
        .unwrap()
        .as_bytes()
        .to_vec();
    let r = decrypt_data(&container, &vec![0u8; 16], None);
    assert!(matches!(r, Err(Error::KeyUnsupported)));
}
