use chat_auth::b64;
use chat_auth::claims::{mint, mint_at, TOKEN_TTL_SECONDS};
use chat_auth::codec::{decode, encode, SigningError, TokenError};

const SECRET: &str = "a-long-enough-test-secret";

#[test]
fn round_trip_authenticated() {
    let claims = mint_at(String::from("user-17"), Some(String::from("alice")), 1_000);
    let token = encode(&claims, SECRET).unwrap();
    let back = decode(&token, SECRET, 1_000).unwrap();
    assert_eq!(back.sub, "user-17");
    assert_eq!(back.iat, 1_000);
    assert_eq!(back.exp, 1_000 + TOKEN_TTL_SECONDS);
    assert_eq!(back.name, Some(String::from("alice")));
}

#[test]
fn round_trip_anonymous() {
    let claims = mint_at(String::from("f47ac10b-58cc-4372-a567-0e02b2c3d479"), None, 5_000);
    let token = encode(&claims, SECRET).unwrap();
    let back = decode(&token, SECRET, 8_599).unwrap();
    assert_eq!(back.sub, "f47ac10b-58cc-4372-a567-0e02b2c3d479");
    assert_eq!(back.name, None);
}

#[test]
fn round_trip_awkward_subject() {
    let sub = "we\"ird\\sub\nject\tüñí©ødé 🦀";
    let claims = mint_at(String::from(sub), Some(String::from("na\"me\\😀")), 42);
    let token = encode(&claims, SECRET).unwrap();
    let back = decode(&token, SECRET, 42).unwrap();
    assert_eq!(back.sub, sub);
    assert_eq!(back.name, Some(String::from("na\"me\\😀")));
}

#[test]
fn encoding_is_deterministic() {
    let a = mint_at(String::from("s"), None, 7);
    let b = mint_at(String::from("s"), None, 7);
    assert_eq!(encode(&a, SECRET).unwrap(), encode(&b, SECRET).unwrap());
}

#[test]
fn expired_token_rejected() {
    let claims = mint_at(String::from("u"), None, 1_000);
    let token = encode(&claims, SECRET).unwrap();
    // the window is half-open: the expiry second itself is out
    assert_eq!(decode(&token, SECRET, 1_000 + TOKEN_TTL_SECONDS), Err(TokenError::Expired));
    assert_eq!(decode(&token, SECRET, 999_999_999), Err(TokenError::Expired));
    assert!(decode(&token, SECRET, 1_000 + TOKEN_TTL_SECONDS - 1).is_ok());
}

#[test]
fn backdated_clock_expires() {
    // minted with a clock far in the past, checked at the present moment
    let claims = mint_at(String::from("u"), None, 10);
    let token = encode(&claims, SECRET).unwrap();
    assert_eq!(decode(&token, SECRET, 1_700_000_000), Err(TokenError::Expired));
}

#[test]
fn wrong_secret_rejected() {
    let claims = mint_at(String::from("u"), None, 1_000);
    let token = encode(&claims, SECRET).unwrap();
    assert_eq!(decode(&token, "another-secret", 1_000), Err(TokenError::BadSignature));
}

#[test]
fn tampering_with_signature_rejected() {
    let claims = mint_at(String::from("user-17"), Some(String::from("alice")), 1_000);
    let token = encode(&claims, SECRET).unwrap();
    let dot = token.rfind('.').unwrap();
    let (message, signature) = token.split_at(dot + 1);
    // replace each signature byte in turn with a different alphabet byte
    for k in 0..signature.len() {
        let mut sig: Vec<u8> = signature.as_bytes().to_vec();
        sig[k] = if sig[k] == b'A' { b'B' } else { b'A' };
        let tampered = format!("{}{}", message, String::from_utf8(sig).unwrap());
        assert_eq!(decode(&tampered, SECRET, 1_000), Err(TokenError::BadSignature));
    }
}

#[test]
fn truncated_signature_rejected() {
    let claims = mint_at(String::from("u"), None, 1_000);
    let token = encode(&claims, SECRET).unwrap();
    let shorter = &token[..token.len() - 1];
    assert_eq!(decode(shorter, SECRET, 1_000), Err(TokenError::BadSignature));
}

#[test]
fn malformed_tokens_rejected() {
    assert_eq!(decode("", SECRET, 0), Err(TokenError::Malformed));
    assert_eq!(decode("nonsense", SECRET, 0), Err(TokenError::Malformed));
    assert_eq!(decode("only.one", SECRET, 0), Err(TokenError::Malformed));
    assert_eq!(decode("a.b.c.d", SECRET, 0), Err(TokenError::Malformed));
    assert_eq!(decode("a.b.c", SECRET, 0), Err(TokenError::Malformed));
    assert_eq!(decode("héllo.wörld.töken", SECRET, 0), Err(TokenError::Malformed));
}

#[test]
fn payload_tampering_is_malformed_or_bad_signature() {
    let claims = mint_at(String::from("user-17"), None, 1_000);
    let token = encode(&claims, SECRET).unwrap();
    let parts: Vec<&str> = token.split('.').collect();
    // a different but well-formed payload fails the signature
    let other = encode(&mint_at(String::from("user-18"), None, 1_000), SECRET).unwrap();
    let other_parts: Vec<&str> = other.split('.').collect();
    let spliced = format!("{}.{}.{}", parts[0], other_parts[1], parts[2]);
    assert_eq!(decode(&spliced, SECRET, 1_000), Err(TokenError::BadSignature));
    // garbage in the payload segment never parses
    let garbled = format!("{}.{}.{}", parts[0], "!!!", parts[2]);
    assert_eq!(decode(&garbled, SECRET, 1_000), Err(TokenError::Malformed));
}

#[test]
fn empty_secret_refused() {
    let claims = mint_at(String::from("u"), None, 1_000);
    assert_eq!(encode(&claims, ""), Err(SigningError::EmptySecret));
}

#[test]
fn header_segment_is_the_expected_jwt_header() {
    let claims = mint_at(String::from("u"), None, 1_000);
    let token = encode(&claims, SECRET).unwrap();
    assert!(token.starts_with("eyJ0eXAiOiJKV1QiLCJhbGciOiJIUzI1NiJ9."));
}

#[test]
fn payload_segment_matches_serde_json_shape() {
    let claims = mint_at(String::from("user-17"), None, 1_000);
    let token = encode(&claims, SECRET).unwrap();
    let parts: Vec<&str> = token.split('.').collect();
    let payload = b64::decode(&parts[1].as_bytes().to_vec()).unwrap();
    assert_eq!(
        String::from_utf8(payload).unwrap(),
        "{\"sub\":\"user-17\",\"iat\":1000,\"exp\":4600}"
    );
}

#[test]
fn jsonwebtoken_accepts_our_tokens() {
    // a token minted at the real present moment, so exp validation passes
    let claims = mint(String::from("interop-subject"), Some(String::from("carol")));
    let token = encode(&claims, SECRET).unwrap();
    let mut validation = jsonwebtoken::Validation::new(jsonwebtoken::Algorithm::HS256);
    validation.validate_exp = true;
    let data = jsonwebtoken::decode::<serde_json::Value>(
        &token,
        &jsonwebtoken::DecodingKey::from_secret(SECRET.as_bytes()),
        &validation,
    )
    .unwrap();
    assert_eq!(data.claims["sub"], serde_json::Value::String(String::from("interop-subject")));
    assert_eq!(data.claims["name"], serde_json::Value::String(String::from("carol")));
}

#[test]
fn base64url_known_vectors() {
    assert_eq!(b64::encode(&vec![77, 97, 110]), b"TWFu".to_vec());
    assert_eq!(b64::encode(&vec![77, 97]), b"TWE".to_vec());
    assert_eq!(b64::encode(&vec![77]), b"TQ".to_vec());
    assert_eq!(b64::encode(&vec![]), Vec::<u8>::new());
    assert_eq!(b64::encode(&vec![251, 239]), b"--8".to_vec());
    assert_eq!(b64::decode(&b"TWFu".to_vec()), Some(vec![77, 97, 110]));
}

#[test]
fn base64url_round_trips_all_bytes() {
    let all: Vec<u8> = (0..=255).collect();
    assert_eq!(b64::decode(&b64::encode(&all)), Some(all));
}

#[test]
fn base64url_rejects_non_canonical() {
    // a single digit encodes nothing
    assert_eq!(b64::decode(&b"A".to_vec()), None);
    // trailing bits must be zero: 'B' is 1, and 1 % 16 != 0
    assert_eq!(b64::decode(&b"AB".to_vec()), None);
    // bytes outside the alphabet
    assert_eq!(b64::decode(&b"TW=u".to_vec()), None);
    assert_eq!(b64::decode(&b"TW+u".to_vec()), None);
}
