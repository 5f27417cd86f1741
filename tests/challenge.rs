use ic_siwe::settings::Settings;
use ic_siwe::siwe::{SiweMessage, SiweMessageError, SiweMessageMap, SolPubkey};
use ic_siwe::text::push_decimal;

fn settings() -> Settings {
    Settings {
        scheme: "http".to_string(),
        domain: "127.0.0.1".to_string(),
        statement: "Login to the app".to_string(),
        uri: "http://127.0.0.1:5173".to_string(),
        chain_id: 10,
        salt: b"salt".to_vec(),
        sign_in_expires_in: 3_000_000_000,
        session_expires_in: 60_000_000_000,
        targets: None,
    }
}

fn key(byte: u8) -> SolPubkey {
    SolPubkey { bytes: vec![byte; 32], address: format!("key-{}", byte) }
}

#[test]
fn new_message_takes_settings_and_window() {
    let m = SiweMessage::new(&key(1), &settings(), "n0".to_string(), 1_000);
    assert_eq!(m.domain, "127.0.0.1");
    assert_eq!(m.address, "key-1");
    assert_eq!(m.version, 1);
    assert_eq!(m.chain_id, 10);
    assert_eq!(m.nonce, "n0");
    assert_eq!(m.issued_at, 1_000);
    assert_eq!(m.expiration_time, 3_000_001_000);
}

#[test]
fn new_message_expiration_saturates() {
    let m = SiweMessage::new(&key(1), &settings(), "n".to_string(), u64::MAX - 5);
    assert_eq!(m.expiration_time, u64::MAX);
}

#[test]
fn render_matches_wallet_format() {
    let mut m = SiweMessage::new(&key(1), &settings(), "ee1ee5ead5b55fe8c8e9".to_string(), 0);
    m.address = "0x5aAeb6053F3E94C9b9A09f33669435E7Ef1BeAed".to_string();
    m.issued_at = 1_620_328_630_000_000_000;
    m.expiration_time = 1_620_328_633_000_000_000;
    let expected = "127.0.0.1 wants you to sign in with your Ethereum account:\n\
0x5aAeb6053F3E94C9b9A09f33669435E7Ef1BeAed\n\n\
Login to the app\n\n\
URI: http://127.0.0.1:5173\n\
Version: 1\n\
Chain ID: 10\n\
Nonce: ee1ee5ead5b55fe8c8e9\n\
Issued At: 2021-05-06T19:17:10Z\n\
Expiration Time: 2021-05-06T19:17:13Z";
    assert_eq!(m.render(), expected);
}

#[test]
fn render_shows_subsecond_times() {
    let m = SiweMessage::new(&key(1), &settings(), "n".to_string(), 1_500_000_000);
    let text = m.render();
    assert!(text.ends_with("Issued At: 1970-01-01T00:00:01.5Z\nExpiration Time: 1970-01-01T00:00:04.5Z"));
}

#[test]
fn decimal_forms() {
    let mut s = String::from("x");
    push_decimal(&mut s, 0);
    push_decimal(&mut s, 7);
    push_decimal(&mut s, 1234567890);
    push_decimal(&mut s, u64::MAX);
    assert_eq!(s, "x07123456789018446744073709551615");
}

#[test]
fn expiry_window_bounds() {
    let m = SiweMessage::new(&key(1), &settings(), "n".to_string(), 100);
    assert!(m.is_expired(99));
    assert!(!m.is_expired(100));
    assert!(!m.is_expired(3_000_000_100));
    assert!(m.is_expired(3_000_000_101));
}

#[test]
fn store_insert_get_remove() {
    let mut store = SiweMessageMap::new();
    assert_eq!(store.get(&key(1)).unwrap_err(), SiweMessageError::MessageNotFound);
    store.insert(&key(1), SiweMessage::new(&key(1), &settings(), "a".to_string(), 5));
    store.insert(&key(2), SiweMessage::new(&key(2), &settings(), "b".to_string(), 6));
    assert_eq!(store.get(&key(1)).unwrap().nonce, "a");
    assert_eq!(store.get(&key(2)).unwrap().nonce, "b");
    store.insert(&key(1), SiweMessage::new(&key(1), &settings(), "c".to_string(), 7));
    assert_eq!(store.get(&key(1)).unwrap().nonce, "c");
    store.remove(&key(1));
    assert!(store.get(&key(1)).is_err());
    assert_eq!(store.get(&key(2)).unwrap().nonce, "b");
    store.remove(&key(1));
    assert!(store.get(&key(2)).is_ok());
}

#[test]
fn store_prune_removes_only_expired() {
    let mut store = SiweMessageMap::default();
    let mut a = SiweMessage::new(&key(1), &settings(), "a".to_string(), 0);
    a.expiration_time = 99;
    let mut b = SiweMessage::new(&key(2), &settings(), "b".to_string(), 0);
    b.expiration_time = 100;
    let mut c = SiweMessage::new(&key(3), &settings(), "c".to_string(), 0);
    c.expiration_time = 101;
    let mut d = SiweMessage::new(&key(4), &settings(), "d".to_string(), 101);
    d.expiration_time = 200;
    store.insert(&key(1), a);
    store.insert(&key(2), b);
    store.insert(&key(3), c);
    store.insert(&key(4), d);
    store.prune_expired(100);
    assert!(store.get(&key(1)).is_err());
    assert_eq!(store.get(&key(2)).unwrap().nonce, "b");
    assert_eq!(store.get(&key(3)).unwrap().nonce, "c");
    assert!(store.get(&key(4)).is_err());
}

#[test]
fn error_display_text() {
    assert_eq!(SiweMessageError::MessageNotFound.message(), "Message not found");
}
