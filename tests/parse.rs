use ic_siwe::parse::{parse_decimal, parse_message, split_lines, strip_prefix, strip_suffix};
use ic_siwe::settings::Settings;
use ic_siwe::siwe::{SiweMessage, SolPubkey};

fn message() -> SiweMessage {
    let settings = Settings {
        scheme: "https".to_string(),
        domain: "app.example".to_string(),
        statement: "Sign in to the app".to_string(),
        uri: "https://app.example/login".to_string(),
        chain_id: 137,
        salt: vec![1, 2, 3],
        sign_in_expires_in: 300_000_000_000,
        session_expires_in: 1_000,
        targets: None,
    };
    let key = SolPubkey { bytes: vec![4; 32], address: "0xabc".to_string() };
    SiweMessage::new(&key, &settings, "f00d".to_string(), 1_700_000_000_123_000_000)
}

#[test]
fn rendered_message_parses_back() {
    let m = message();
    let p = parse_message(&m.render()).expect("parses");
    assert_eq!(p.domain, m.domain);
    assert_eq!(p.address, m.address);
    assert_eq!(p.statement, m.statement);
    assert_eq!(p.uri, m.uri);
    assert_eq!(p.version, 1);
    assert_eq!(p.chain_id, 137);
    assert_eq!(p.nonce, "f00d");
    assert_eq!(p.issued_at, "2023-11-14T22:13:20.123Z");
    assert_eq!(p.expiration_time, "2023-11-14T22:18:20.123Z");
}

#[test]
fn empty_fields_parse_back() {
    let mut m = message();
    m.statement = String::new();
    m.domain = String::new();
    m.chain_id = u32::MAX;
    let p = parse_message(&m.render()).expect("parses");
    assert_eq!(p.statement, "");
    assert_eq!(p.domain, "");
    assert_eq!(p.chain_id, u32::MAX);
}

#[test]
fn malformed_texts_do_not_parse() {
    let text = message().render();
    assert!(parse_message(&text.replace("Version: 1", "Version: x")).is_none());
    assert!(parse_message(&text.replace("Version: 1", "Version: 256")).is_none());
    assert!(parse_message(&text.replace("URI: ", "Uri: ")).is_none());
    assert!(parse_message(&format!("{}\nextra", text)).is_none());
    assert!(parse_message(&String::new()).is_none());
}

#[test]
fn line_splitting() {
    let ls = split_lines("a\n\nbc\n");
    assert_eq!(ls, vec!["a".to_string(), String::new(), "bc".to_string(), String::new()]);
    assert_eq!(split_lines(""), vec![String::new()]);
}

#[test]
fn decimal_parsing() {
    assert_eq!(parse_decimal("0"), Some(0));
    assert_eq!(parse_decimal("18446744073709551615"), Some(u64::MAX));
    assert_eq!(parse_decimal("18446744073709551616"), None);
    assert_eq!(parse_decimal(""), None);
    assert_eq!(parse_decimal("1a"), None);
}

#[test]
fn prefix_and_suffix_stripping() {
    assert_eq!(strip_prefix(&"Nonce: x".to_string(), "Nonce: "), Some("x".to_string()));
    assert_eq!(strip_prefix(&"Nonc".to_string(), "Nonce: "), None);
    assert_eq!(strip_suffix(&"ab:".to_string(), ":"), Some("ab".to_string()));
    assert_eq!(strip_suffix(&"ab".to_string(), ":"), None);
}
