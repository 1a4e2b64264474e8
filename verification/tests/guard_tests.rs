use chat_auth::claims::mint_at;
use chat_auth::codec::{decode, encode};
use chat_auth::guard::{
    extract_candidate, extract_identity, guard_core, guard_rejection_response, guard_request,
    AuthError, GuardOutcome, Identity, RoutePolicy,
};

const SECRET: &str = "guard-test-secret";

fn token_from_cookie(set_cookie: &str) -> String {
    let rest = set_cookie.strip_prefix("token=").unwrap();
    let token = rest.strip_suffix("; Path=/; SameSite=Lax; HttpOnly").unwrap();
    String::from(token)
}

#[test]
fn soft_route_without_candidate_bootstraps_anonymous_session() {
    let r = guard_core(None, RoutePolicy::Soft, SECRET, 2_000, String::from("anon-9"));
    match r {
        GuardOutcome::AnonymousIssued { identity, set_cookie } => {
            // the handler runs under the fresh identity …
            assert_eq!(identity.subject, "anon-9");
            assert_eq!(identity.display_name, None);
            // … and the response carries a cookie whose token verifies
            let token = token_from_cookie(&set_cookie);
            let claims = decode(&token, SECRET, 2_000).unwrap();
            assert_eq!(claims.sub, "anon-9");
            assert_eq!(claims.name, None);
        },
        _ => panic!("expected an anonymous session"),
    }
}

#[test]
fn strict_route_without_candidate_rejects() {
    let r = guard_core(None, RoutePolicy::Strict, SECRET, 2_000, String::from("anon-9"));
    match r {
        GuardOutcome::Rejected { error } => {
            assert_eq!(error, AuthError::MissingToken);
        },
        _ => panic!("expected a rejection"),
    }
}

#[test]
fn valid_token_verifies_and_sets_no_cookie() {
    let claims = mint_at(String::from("user-3"), Some(String::from("bob")), 2_000);
    let token = encode(&claims, SECRET).unwrap();
    let r = guard_core(Some(token), RoutePolicy::Soft, SECRET, 2_000, String::from("anon"));
    match r {
        GuardOutcome::Verified { identity } => {
            assert_eq!(identity.subject, "user-3");
            assert_eq!(identity.display_name, Some(String::from("bob")));
        },
        _ => panic!("expected a verified identity"),
    }
}

#[test]
fn wrong_secret_token_is_rejected_as_invalid() {
    let claims = mint_at(String::from("user-3"), None, 2_000);
    let token = encode(&claims, "some-other-secret").unwrap();
    let r = guard_core(Some(token), RoutePolicy::Soft, SECRET, 2_000, String::from("anon"));
    match r {
        GuardOutcome::Rejected { error } => {
            assert_eq!(error, AuthError::InvalidToken);
            let (status, body) = guard_rejection_response(&error);
            assert_eq!(status, 401);
            assert_eq!(body.status, "fail");
            assert_eq!(body.message, "Invalid token");
        },
        _ => panic!("expected a rejection"),
    }
}

#[test]
fn expired_token_is_rejected_as_invalid() {
    let claims = mint_at(String::from("user-3"), None, 2_000);
    let token = encode(&claims, SECRET).unwrap();
    let r = guard_core(Some(token), RoutePolicy::Soft, SECRET, 99_999, String::from("anon"));
    assert!(matches!(r, GuardOutcome::Rejected { error: AuthError::InvalidToken }));
}

#[test]
fn header_fallback_requires_exact_bearer_prefix() {
    let header = String::from("Bearer abc.def.ghi");
    assert_eq!(extract_candidate(None, Some(&header)), Some(String::from("abc.def.ghi")));
    let lower = String::from("bearer abc");
    assert_eq!(extract_candidate(None, Some(&lower)), None);
    let fused = String::from("Bearerabc");
    assert_eq!(extract_candidate(None, Some(&fused)), None);
    let bare = String::from("Bearer ");
    assert_eq!(extract_candidate(None, Some(&bare)), Some(String::from("")));
    let short = String::from("Beare");
    assert_eq!(extract_candidate(None, Some(&short)), None);
    assert_eq!(extract_candidate(None, None), None);
}

#[test]
fn cookie_takes_precedence_over_valid_header() {
    // a garbage cookie and a header carrying a perfectly valid token
    let claims = mint_at(String::from("user-3"), None, 2_000);
    let good = encode(&claims, SECRET).unwrap();
    let header = format!("Bearer {}", good);
    let cookie = String::from("not-a-token");
    let candidate = extract_candidate(Some(&cookie), Some(&header));
    // the cookie is what gets considered …
    assert_eq!(candidate, Some(String::from("not-a-token")));
    // … so the request is rejected on the cookie; the header is never consulted
    let r = guard_core(candidate, RoutePolicy::Soft, SECRET, 2_000, String::from("anon"));
    assert!(matches!(r, GuardOutcome::Rejected { error: AuthError::InvalidToken }));
}

#[test]
fn guard_request_bootstraps_with_fresh_uuid_subject() {
    let r = guard_request(None, None, RoutePolicy::Soft, SECRET);
    match r {
        GuardOutcome::AnonymousIssued { identity, set_cookie } => {
            assert_eq!(identity.subject.len(), 36);
            assert!(set_cookie.starts_with("token="));
            assert!(set_cookie.ends_with("; Path=/; SameSite=Lax; HttpOnly"));
        },
        _ => panic!("expected an anonymous session"),
    }
}

#[test]
fn extractor_trusts_the_guard() {
    let ctx = Some(Identity { subject: String::from("user-3"), display_name: None });
    let got = extract_identity(&ctx).unwrap();
    assert_eq!(got.subject, "user-3");
    let empty: Option<Identity> = None;
    let err = extract_identity(&empty).unwrap_err();
    assert_eq!(err, AuthError::MissingToken);
    let (status, message) = err.response_parts();
    assert_eq!(status, 401);
    assert_eq!(message, "Missing token.");
}

#[test]
fn invalid_token_page_response_is_400() {
    let (status, message) = AuthError::InvalidToken.response_parts();
    assert_eq!(status, 400);
    assert_eq!(message, "Invalid token");
}
