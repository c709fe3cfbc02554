use audioserve::auth::{prepare_data, secret_too_long, Secrets, Token, TokenError};
use data_encoding::BASE64;
use ring::digest::{digest, SHA256};
use std::time::{SystemTime, UNIX_EPOCH};

fn now() -> u64 {
    SystemTime::now().duration_since(UNIX_EPOCH).unwrap().as_secs()
}

#[test]
fn test_token() {
    let token = Token::new(24, b"my big secret", now()).unwrap();
    assert!(token.is_valid(b"my big secret", now()));
    let orig_token = token.clone();
    let serialized_token: String = token.to_text();
    assert!(serialized_token.len() >= 72);
    let new_token: Token = Token::from_text(&serialized_token).unwrap();
    assert_eq!(orig_token, new_token);
    assert!(new_token.is_valid(b"my big secret", now()));
    assert!(!new_token.is_valid(b"wrong secret", now()));
    assert!(new_token.validity() - now() <= 24 * 3600);
}

#[test]
fn token_expires() {
    let t = Token::with_random(vec![7u8; 32], 1000, 1, b"k");
    assert_eq!(t.validity(), 4600);
    assert!(t.is_valid(b"k", 4599));
    assert!(!t.is_valid(b"k", 4600));
}

#[test]
fn token_validity_saturates() {
    let t = Token::with_random(vec![0u8; 32], u64::MAX - 10, 1, b"k");
    assert_eq!(t.validity(), u64::MAX);
}

#[test]
fn token_text_errors() {
    assert_eq!(Token::from_text("not base64!"), Err(TokenError::InvalidEncoding));
    assert_eq!(Token::from_text(&BASE64.encode(&[1u8; 71])), Err(TokenError::InvalidSize));
    let t = Token::from_text(&BASE64.encode(&[1u8; 72])).unwrap();
    assert_eq!(t.validity(), u64::from_be_bytes([1u8; 8]));
    assert!(!t.is_valid(b"k", 0));
}

#[test]
fn token_text_is_base64_of_parts() {
    let t = Token::with_random(vec![3u8; 32], 0, 0, b"key");
    let bytes = BASE64.decode(t.to_text().as_bytes()).unwrap();
    assert_eq!(bytes.len(), 72);
    assert_eq!(&bytes[..32], &[3u8; 32][..]);
    assert_eq!(&bytes[32..40], &0u64.to_be_bytes()[..]);
    let key = ring::hmac::Key::new(ring::hmac::HMAC_SHA256, b"key");
    let tag = ring::hmac::sign(&key, &bytes[..40]);
    assert_eq!(&bytes[40..], tag.as_ref());
}

#[test]
fn prepare_data_concatenates() {
    assert_eq!(prepare_data(&[1, 2], &[3]), vec![1, 2, 3]);
}

fn shared_secret(sec: &str, salt: &[u8]) -> String {
    let mut res = BASE64.encode(salt);
    res.push('|');
    let mut hash: Vec<u8> = sec.into();
    hash.extend(salt);
    let hash = digest(&SHA256, &hash);
    res.push_str(&BASE64.encode(hash.as_ref()));
    res
}

#[test]
fn login_with_shared_secret() {
    let s = Secrets::new("kulisak", b"123456".to_vec(), 24);
    let salt = [9u8; 32];
    assert!(s.auth_token_ok(&shared_secret("kulisak", &salt)));
    assert!(!s.auth_token_ok(&shared_secret("other", &salt)));
    assert!(!s.auth_token_ok(&shared_secret("kulisak", &[9u8; 31])));
    assert!(!s.auth_token_ok("aaaaa"));
    assert!(!s.auth_token_ok(""));
    // A part that is not base64 is skipped.
    let with_junk = format!("{}|!!", shared_secret("kulisak", &salt));
    assert!(s.auth_token_ok(&with_junk));
    let three = format!("{}|{}", shared_secret("kulisak", &salt), BASE64.encode(b"x"));
    assert!(!s.auth_token_ok(&three));
}

#[test]
fn issued_token_is_accepted() {
    let s = Secrets::new("kulisak", b"123456".to_vec(), 24);
    let t = s.new_auth_token(now()).unwrap();
    assert!(t.len() > 64);
    assert!(s.token_ok(&t, now()));
    assert!(!s.token_ok(&t, now() + 25 * 3600));
    let other = Secrets::new("kulisak", b"654321".to_vec(), 24);
    assert!(!other.token_ok(&t, now()));
    assert!(!s.token_ok("garbage", now()));
}

#[test]
fn secret_length_limit() {
    assert!(!secret_too_long(128));
    assert!(secret_too_long(129));
    assert!(!secret_too_long(0));
}

#[test]
fn fresh_tokens_differ() {
    let a = Token::new(1, b"k", 0).unwrap();
    let b = Token::new(1, b"k", 0).unwrap();
    assert_ne!(a.to_text(), b.to_text());
}
