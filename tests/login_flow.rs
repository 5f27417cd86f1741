use ic_siwe::delegation::{
    create_delegation, create_delegation_hash, create_user_canister_pubkey, encode_delegation,
    generate_seed,
};
use ic_siwe::hash::digest;
use ic_siwe::login::{
    complete_login, login, prepare_login, LoginError, SignatureError, MAX_SIGS_TO_PRUNE,
};
use ic_siwe::settings::Settings;
use ic_siwe::signature_map::{verify_membership, SignatureMap};
use ic_siwe::siwe::{SiweMessageError, SiweMessageMap, SolPubkey};

/// Accepts a signature that is the message bytes followed by the key bytes.
fn concat_verify(message: &String, signature: &Vec<u8>, pubkey: &Vec<u8>) -> Result<(), SignatureError> {
    if signature.is_empty() {
        return Err(SignatureError::MalformedSignature);
    }
    let mut expected = message.as_bytes().to_vec();
    expected.extend_from_slice(pubkey);
    if *signature == expected {
        Ok(())
    } else {
        Err(SignatureError::InvalidSignature)
    }
}

fn sign(text: &str, key: &SolPubkey) -> Vec<u8> {
    let mut s = text.as_bytes().to_vec();
    s.extend_from_slice(&key.bytes);
    s
}

fn settings() -> Settings {
    Settings {
        scheme: "https".to_string(),
        domain: "example.org".to_string(),
        statement: "Sign in".to_string(),
        uri: "https://example.org".to_string(),
        chain_id: 1,
        salt: b"deployment-salt".to_vec(),
        sign_in_expires_in: 300_000_000_000,
        session_expires_in: 1_800_000_000_000,
        targets: None,
    }
}

fn key(byte: u8) -> SolPubkey {
    SolPubkey { bytes: vec![byte; 32], address: format!("wallet-{}", byte) }
}

fn canister() -> Vec<u8> {
    vec![0, 0, 0, 0, 0, 0, 0, 1, 1, 1]
}

#[test]
fn prepare_then_login_returns_stable_identifier() {
    let s = settings();
    let k1 = key(1);
    let mut messages = SiweMessageMap::new();
    let mut sigs = SignatureMap::new();
    let m = prepare_login(&k1, &s, &mut messages, "nonce-1".to_string(), 1_000);
    let text = m.render();
    assert!(text.contains("\nNonce: nonce-1\n"));
    let d = login(concat_verify, &sign(&text, &k1), &k1, vec![7; 44], &mut messages, &mut sigs, &s, &canister(), 2_000)
        .ok()
        .unwrap();
    assert_eq!(d.expiration, 1_000 + 1_800_000_000_000);
    assert_eq!(sigs.len(), 1);

    let m2 = prepare_login(&k1, &s, &mut messages, "nonce-2".to_string(), 5_000);
    let text2 = m2.render();
    let d2 = login(concat_verify, &sign(&text2, &k1), &k1, vec![8; 44], &mut messages, &mut sigs, &s, &canister(), 6_000)
        .ok()
        .unwrap();
    assert_eq!(d2.user_canister_pubkey, d.user_canister_pubkey);
    assert_eq!(d2.expiration, 5_000 + 1_800_000_000_000);
    assert_eq!(sigs.len(), 1);
}

#[test]
fn second_login_with_same_signature_is_not_found() {
    let s = settings();
    let k1 = key(1);
    let mut messages = SiweMessageMap::new();
    let mut sigs = SignatureMap::new();
    let m = prepare_login(&k1, &s, &mut messages, "n".to_string(), 10);
    let sig = sign(&m.render(), &k1);
    assert!(login(concat_verify, &sig, &k1, vec![1], &mut messages, &mut sigs, &s, &canister(), 11).is_ok());
    let again = login(concat_verify, &sig, &k1, vec![1], &mut messages, &mut sigs, &s, &canister(), 12);
    assert_eq!(again.err().unwrap(), LoginError::SiweMessageError(SiweMessageError::MessageNotFound));
}

#[test]
fn expired_challenge_is_not_found() {
    let s = settings();
    let k1 = key(1);
    let mut messages = SiweMessageMap::new();
    let mut sigs = SignatureMap::new();
    let m = prepare_login(&k1, &s, &mut messages, "n".to_string(), 10);
    let now = m.expiration_time + 1;
    let r = login(concat_verify, &sign(&m.render(), &k1), &k1, vec![1], &mut messages, &mut sigs, &s, &canister(), now);
    assert_eq!(r.err().unwrap(), LoginError::SiweMessageError(SiweMessageError::MessageNotFound));
    assert_eq!(sigs.len(), 0);
}

#[test]
fn signature_of_other_key_is_invalid() {
    let s = settings();
    let k1 = key(1);
    let k2 = key(2);
    let mut messages = SiweMessageMap::new();
    let mut sigs = SignatureMap::new();
    let m = prepare_login(&k1, &s, &mut messages, "n".to_string(), 10);
    let r = login(concat_verify, &sign(&m.render(), &k2), &k1, vec![1], &mut messages, &mut sigs, &s, &canister(), 11);
    assert_eq!(r.err().unwrap(), LoginError::SignatureError(SignatureError::InvalidSignature));
    assert_eq!(sigs.len(), 0);
    let again = login(concat_verify, &sign(&m.render(), &k1), &k1, vec![1], &mut messages, &mut sigs, &s, &canister(), 12);
    assert_eq!(again.err().unwrap(), LoginError::SiweMessageError(SiweMessageError::MessageNotFound));
}

#[test]
fn malformed_signature_is_reported() {
    let s = settings();
    let k1 = key(1);
    let mut messages = SiweMessageMap::new();
    let mut sigs = SignatureMap::new();
    prepare_login(&k1, &s, &mut messages, "n".to_string(), 10);
    let r = login(concat_verify, &vec![], &k1, vec![1], &mut messages, &mut sigs, &s, &canister(), 11);
    assert_eq!(r.err().unwrap(), LoginError::SignatureError(SignatureError::MalformedSignature));
    assert_eq!(LoginError::SignatureError(SignatureError::MalformedKey).message(), "Malformed public key");
    assert_eq!(LoginError::AddressMismatch.message(), "Recovered address does not match");
}

#[test]
fn login_puts_delegation_into_map() {
    let s = settings();
    let k1 = key(3);
    let mut messages = SiweMessageMap::new();
    let mut sigs = SignatureMap::new();
    let m = prepare_login(&k1, &s, &mut messages, "n".to_string(), 100);
    let d = login(concat_verify, &sign(&m.render(), &k1), &k1, vec![9; 4], &mut messages, &mut sigs, &s, &canister(), 200)
        .ok()
        .unwrap();
    let seed = generate_seed(&s.salt, &k1.bytes);
    let expected_hash = create_delegation_hash(&create_delegation(vec![9; 4], d.expiration, &None));
    let w = sigs.witness(&digest(&seed));
    assert!(verify_membership(&w, &digest(&seed), &expected_hash, &sigs.root()));
    assert_eq!(d.user_canister_pubkey, create_user_canister_pubkey(&canister(), &seed));
    sigs.prune_expired(d.expiration, 10);
    assert_eq!(sigs.len(), 1);
    sigs.prune_expired(d.expiration + 1, 10);
    assert_eq!(sigs.len(), 0);
}

#[test]
fn complete_login_spends_challenge_on_failure() {
    let s = settings();
    let k1 = key(1);
    let mut messages = SiweMessageMap::new();
    let mut sigs = SignatureMap::new();
    let m = prepare_login(&k1, &s, &mut messages, "n".to_string(), 10);
    let r = complete_login(Err(SignatureError::InvalidSignature), &m, &k1, vec![1], &mut messages, &mut sigs, &s, &canister(), 11);
    assert!(r.is_err());
    assert!(messages.get(&k1).is_err());
    assert_eq!(MAX_SIGS_TO_PRUNE, 10);
}

#[test]
fn seed_is_deterministic_and_salted() {
    let a = generate_seed(&b"salt".to_vec(), &vec![1; 32]);
    let b = generate_seed(&b"salt".to_vec(), &vec![1; 32]);
    let c = generate_seed(&b"other".to_vec(), &vec![1; 32]);
    let d = generate_seed(&b"salt".to_vec(), &vec![2; 32]);
    assert_eq!(a, b);
    assert_eq!(a.len(), 32);
    assert_ne!(a, c);
    assert_ne!(a, d);
    let mut joined = b"salt".to_vec();
    joined.extend_from_slice(&[1; 32]);
    assert_eq!(a, digest(&joined));
}

#[test]
fn user_canister_pubkey_der_layout() {
    let seed = vec![0xab; 32];
    let key = create_user_canister_pubkey(&canister(), &seed);
    let prefix = [
        0x30, 0x3c, 0x30, 0x0c, 0x06, 0x0a, 0x2b, 0x06, 0x01, 0x04, 0x01, 0x83, 0xb8, 0x43, 0x01,
        0x02, 0x03, 0x2c, 0x00, 0x0a,
    ];
    assert_eq!(key[..prefix.len()], prefix);
    assert_eq!(key[prefix.len()..prefix.len() + 10], canister()[..]);
    assert_eq!(key[prefix.len() + 10..], seed[..]);
}

#[test]
fn delegation_encoding_layout() {
    let d = create_delegation(vec![1, 2], 0x0102030405060708, &Some(vec![vec![9]]));
    assert_eq!(
        encode_delegation(&d),
        vec![0, 0, 0, 0, 0, 0, 0, 2, 1, 2, 1, 2, 3, 4, 5, 6, 7, 8, 1, 0, 0, 0, 0, 0, 0, 0, 1, 0, 0, 0, 0, 0, 0, 0, 1, 9]
    );
    let plain = create_delegation(vec![1, 2], 5, &None);
    assert_eq!(encode_delegation(&plain), vec![0, 0, 0, 0, 0, 0, 0, 2, 1, 2, 0, 0, 0, 0, 0, 0, 0, 5, 0]);
    assert_ne!(create_delegation_hash(&plain), create_delegation_hash(&d));
}
