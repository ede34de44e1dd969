use dns_camo::payload::{Payload, PayloadError};

const KEY1: [u8; 32] = [7u8; 32];
const KEY2: [u8; 32] = [8u8; 32];
// A fixed nonce whose last octet is not zero, so the trailing-zero trim
// leaves the envelope intact.
const NONCE: [u8; 12] = [1, 2, 3, 4, 5, 6, 7, 8, 9, 10, 11, 12];

#[test]
fn crypto_round_trip() {
    let mut p = Payload::new(b"hello world".to_vec(), &KEY1, Some(NONCE.to_vec())).unwrap();
    p.encrypt().unwrap();
    let env = p.as_slice().to_vec();
    assert_eq!(env.len(), 11 + 16 + 12);
    assert_eq!(&env[env.len() - 12..], &NONCE);

    let mut q = Payload::new(env, &KEY1, Some(NONCE.to_vec())).unwrap();
    q.decrypt().unwrap();
    assert_eq!(q.as_slice(), b"hello world");
}

#[test]
fn auth_failure_with_wrong_key() {
    let mut p = Payload::new(b"hello".to_vec(), &KEY1, Some(NONCE.to_vec())).unwrap();
    p.encrypt().unwrap();
    let env = p.as_slice().to_vec();
    let mut q = Payload::new(env, &KEY2, Some(NONCE.to_vec())).unwrap();
    assert_eq!(q.decrypt(), Err(PayloadError::AuthFailed));
}

#[test]
fn tampered_envelope_fails() {
    let mut p = Payload::new(b"payload".to_vec(), &KEY1, Some(NONCE.to_vec())).unwrap();
    p.encrypt().unwrap();
    let mut env = p.as_slice().to_vec();
    env[0] ^= 0x55;
    let mut q = Payload::new(env, &KEY1, Some(NONCE.to_vec())).unwrap();
    assert_eq!(q.decrypt(), Err(PayloadError::AuthFailed));
}

#[test]
fn encrypt_is_deterministic_for_fixed_nonce() {
    let mut a = Payload::new(b"same input".to_vec(), &KEY1, Some(NONCE.to_vec())).unwrap();
    let mut b = Payload::new(b"same input".to_vec(), &KEY1, Some(NONCE.to_vec())).unwrap();
    a.encrypt().unwrap();
    b.encrypt().unwrap();
    assert_eq!(a.as_slice(), b.as_slice());
}

#[test]
fn ciphertext_differs_from_plaintext() {
    let mut p = Payload::new(b"plaintext bytes".to_vec(), &KEY1, Some(NONCE.to_vec())).unwrap();
    p.encrypt().unwrap();
    assert_ne!(&p.as_slice()[..15], b"plaintext bytes");
}

#[test]
fn short_key_is_rejected() {
    let short = [1u8; 31];
    assert!(matches!(
        Payload::new(b"data".to_vec(), &short, None),
        Err(PayloadError::KeyUnreadable)
    ));
}

#[test]
fn extra_key_octets_are_ignored() {
    let mut long_key = KEY1.to_vec();
    long_key.extend_from_slice(&[0xFF; 8]);
    let mut p = Payload::new(b"msg".to_vec(), &long_key, Some(NONCE.to_vec())).unwrap();
    p.encrypt().unwrap();
    let mut q = Payload::new(p.as_slice().to_vec(), &KEY1, Some(NONCE.to_vec())).unwrap();
    q.decrypt().unwrap();
    assert_eq!(q.as_slice(), b"msg");
}

#[test]
fn short_envelope_is_format_error() {
    let mut p = Payload::new(vec![1, 2, 3], &KEY1, Some(NONCE.to_vec())).unwrap();
    assert_eq!(p.decrypt(), Err(PayloadError::EnvelopeFormat));
}

#[test]
fn all_zero_envelope_is_format_error() {
    let mut p = Payload::new(vec![0u8; 40], &KEY1, Some(NONCE.to_vec())).unwrap();
    assert_eq!(p.decrypt(), Err(PayloadError::EnvelopeFormat));
}

#[test]
fn fresh_nonce_is_drawn_when_none_is_given() {
    let mut p = Payload::new(b"random nonce".to_vec(), &KEY1, None).unwrap();
    p.encrypt().unwrap();
    assert_eq!(p.as_slice().len(), 12 + 16 + 12);
}

#[test]
fn padded_envelope_is_trimmed_before_split() {
    let mut p = Payload::new(b"padded".to_vec(), &KEY1, Some(NONCE.to_vec())).unwrap();
    p.encrypt().unwrap();
    let mut env = p.as_slice().to_vec();
    env.extend_from_slice(&[0u8; 10]);
    let mut q = Payload::new(env, &KEY1, Some(NONCE.to_vec())).unwrap();
    q.decrypt().unwrap();
    assert_eq!(q.as_slice(), b"padded");
}
