use ras::b64::{b64_decode, b64_encode};
use ras::cipher::{AppleChallenge, RsaAesCipher};
use rsa::pkcs1::EncodeRsaPrivateKey;
use rsa::traits::PublicKeyParts;

fn test_key_pem() -> String {
    let mut rng = rand::thread_rng();
    let key = rsa::RsaPrivateKey::new(&mut rng, 1024).unwrap();
    key.to_pkcs1_pem(rsa::pkcs1::LineEnding::LF).unwrap().to_string()
}

#[test]
fn base64_encode_and_decode() {
    assert_eq!(b64_encode(&b"test".to_vec()), "dGVzdA==");
    assert_eq!(b64_decode("dGVzdA==").unwrap(), b"test".to_vec());
    assert_eq!(b64_decode("dGVzdA").unwrap(), b"test".to_vec());
    assert!(b64_decode("d(Vz").is_none());
    assert_eq!(b64_encode(&Vec::new()), "");
}

#[test]
fn aes_cbc_known_block() {
    // the AES-128 example vector: with a zero IV one CBC block is one raw
    // block decryption
    let key = vec![
        0x00u8, 0x01, 0x02, 0x03, 0x04, 0x05, 0x06, 0x07, 0x08, 0x09, 0x0a, 0x0b, 0x0c, 0x0d,
        0x0e, 0x0f,
    ];
    let iv = vec![0u8; 16];
    let cipher = RsaAesCipher { key, iv };
    let ct = vec![
        0x69u8, 0xc4, 0xe0, 0xd8, 0x6a, 0x7b, 0x04, 0x30, 0xd8, 0xcd, 0xb7, 0x80, 0x70, 0xb4,
        0xc5, 0x5a,
    ];
    let pt = cipher.decrypt(&ct);
    assert_eq!(
        pt,
        vec![
            0x00u8, 0x11, 0x22, 0x33, 0x44, 0x55, 0x66, 0x77, 0x88, 0x99, 0xaa, 0xbb, 0xcc,
            0xdd, 0xee, 0xff,
        ]
    );
}

#[test]
fn aes_cbc_trailing_bytes_pass_through() {
    let key = vec![7u8; 16];
    let iv = vec![3u8; 16];
    let cipher = RsaAesCipher { key, iv };
    let mut raw = vec![1u8; 16];
    raw.extend_from_slice(&[9, 8, 7, 6, 5]);
    let out = cipher.decrypt(&raw);
    assert_eq!(out.len(), 21);
    assert_eq!(&out[16..], &[9, 8, 7, 6, 5]);
}

#[test]
fn aes_cbc_per_packet_reset() {
    let key = vec![0x42u8; 16];
    let iv = vec![0x17u8; 16];
    let cipher = RsaAesCipher { key, iv };
    let pkt_a = vec![0xABu8; 32];
    let pkt_b = vec![0xCDu8; 48];
    // decrypting [a, b] in sequence equals decrypting [b, a]: each packet
    // restarts from the configured vector
    let first_a = cipher.decrypt(&pkt_a);
    let first_b = cipher.decrypt(&pkt_b);
    let second_b = cipher.decrypt(&pkt_b);
    let second_a = cipher.decrypt(&pkt_a);
    assert_eq!(first_a, second_a);
    assert_eq!(first_b, second_b);
}

#[test]
fn apple_challenge_deterministic() {
    let pem = test_key_pem();
    let ip = vec![192u8, 168, 1, 1];
    let mac = vec![0x00u8, 0x11, 0x22, 0x33, 0x44, 0x55];
    let a = AppleChallenge::new(&pem, &ip, &mac);
    let b = AppleChallenge::new(&pem, &ip, &mac);
    let ra = a.response("dGVzdA==").unwrap();
    let rb = b.response("dGVzdA").unwrap();
    assert_eq!(ra, rb);
    assert!(!ra.contains('='));
    assert!(!ra.is_empty());
}

#[test]
fn apple_challenge_rejects_bad_base64() {
    let pem = test_key_pem();
    let ip = vec![192u8, 168, 1, 1];
    let mac = vec![0u8; 6];
    let c = AppleChallenge::new(&pem, &ip, &mac);
    assert!(c.response("not*base64").is_err());
}

#[test]
fn rsa_key_unwrap_round_trip() {
    let mut rng = rand::thread_rng();
    let key = rsa::RsaPrivateKey::new(&mut rng, 1024).unwrap();
    let pem = key.to_pkcs1_pem(rsa::pkcs1::LineEnding::LF).unwrap().to_string();
    let public = rsa::RsaPublicKey::new(key.n().clone(), key.e().clone()).unwrap();

    let aes_key = vec![0x5Au8; 16];
    let wrapped = public
        .encrypt(&mut rng, rsa::Oaep::new::<sha1::Sha1>(), &aes_key)
        .unwrap();
    let iv = vec![0x11u8; 16];

    let cipher = RsaAesCipher::new(&pem, &wrapped, &iv).unwrap();
    assert_eq!(cipher.key, aes_key);
    assert_eq!(cipher.iv, iv);

    // a wrapped key that does not unwrap is refused
    let mut broken = wrapped.clone();
    broken[0] ^= 0xFF;
    broken[1] ^= 0xFF;
    assert!(RsaAesCipher::new(&pem, &broken, &iv).is_err());
}

#[test]
fn base64_accepts_single_pad_forms() {
    assert_eq!(b64_decode("AAA=").unwrap(), vec![0u8, 0]);
    assert_eq!(b64_decode("AAA").unwrap(), vec![0u8, 0]);
    assert!(b64_decode("AAAAA").is_none());
    assert!(b64_decode("AB").is_none());
}
