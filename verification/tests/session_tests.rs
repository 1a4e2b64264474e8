use chat_auth::chat::{message_texts, Message};
use chat_auth::claims::{mint, mint_at, TOKEN_TTL_SECONDS};
use chat_auth::codec::{decode, SigningError};
use chat_auth::session::{
    build_cookie, check_credentials, create_token_cookie, issue_anonymous, issue_anonymous_at,
    issue_for_user, login_finish, verify_password, LoginData, LoginOutcome, User,
};

const SECRET: &str = "session-test-secret";

fn sample_user() -> User {
    User {
        uid: String::from("uid-42"),
        username: String::from("alice"),
        password: String::from("correct-horse"),
    }
}

#[test]
fn validity_window_is_half_open() {
    let c = mint_at(String::from("s"), None, 1_000);
    assert!(c.is_valid(1_000));
    assert!(c.is_valid(1_000 + TOKEN_TTL_SECONDS - 1));
    assert!(!c.is_valid(1_000 + TOKEN_TTL_SECONDS));
    assert!(!c.is_valid(999));
}

#[test]
fn mint_uses_one_ttl() {
    let c = mint(String::from("s"), None);
    assert_eq!(c.exp, c.iat + TOKEN_TTL_SECONDS);
    assert_eq!(c.sub, "s");
    assert_eq!(c.name, None);
}

#[test]
fn short_username_never_reaches_credentials() {
    let form = LoginData { username: String::from("ab"), password: String::from("long-enough-pw") };
    assert!(!form.validate());
    // even a record with the right password cannot turn this into a session
    let r = login_finish(&form, Some(sample_user()), SECRET, 1_000);
    assert!(matches!(r, LoginOutcome::ValidationFailed));
}

#[test]
fn short_password_fails_validation() {
    let form = LoginData { username: String::from("alice"), password: String::from("short") };
    assert!(!form.validate());
    let r = login_finish(&form, Some(sample_user()), SECRET, 1_000);
    assert!(matches!(r, LoginOutcome::ValidationFailed));
}

#[test]
fn unknown_user_and_wrong_password_are_indistinguishable() {
    let form = LoginData {
        username: String::from("alice"),
        password: String::from("wrong-password"),
    };
    let r_missing = login_finish(&form, None, SECRET, 1_000);
    let r_wrong = login_finish(&form, Some(sample_user()), SECRET, 1_000);
    assert!(matches!(r_missing, LoginOutcome::BadCredentials));
    assert!(matches!(r_wrong, LoginOutcome::BadCredentials));
}

#[test]
fn successful_login_issues_a_working_cookie() {
    let form = LoginData {
        username: String::from("alice"),
        password: String::from("correct-horse"),
    };
    let r = login_finish(&form, Some(sample_user()), SECRET, 1_000);
    match r {
        LoginOutcome::Success { set_cookie } => {
            let token = set_cookie
                .strip_prefix("token=")
                .unwrap()
                .strip_suffix("; Path=/; SameSite=Lax; HttpOnly")
                .unwrap();
            let claims = decode(token, SECRET, 1_000).unwrap();
            assert_eq!(claims.sub, "uid-42");
            assert_eq!(claims.name, Some(String::from("alice")));
            assert_eq!(claims.iat, 1_000);
            assert_eq!(claims.exp, 1_000 + TOKEN_TTL_SECONDS);
        },
        _ => panic!("expected a session"),
    }
}

#[test]
fn check_credentials_compares_the_stored_secret() {
    let form = LoginData {
        username: String::from("alice"),
        password: String::from("correct-horse"),
    };
    assert!(check_credentials(&form, Some(sample_user())).is_some());
    assert!(check_credentials(&form, None).is_none());
    let other = LoginData { username: String::from("alice"), password: String::from("not-it") };
    assert!(check_credentials(&other, Some(sample_user())).is_none());
}

#[test]
fn password_comparison_is_exact() {
    assert!(verify_password("abcdef", "abcdef"));
    assert!(!verify_password("abcdef", "abcdeg"));
    assert!(!verify_password("abc", "abcdef"));
    assert!(verify_password("", ""));
    assert!(verify_password("päss🦀", "päss🦀"));
}

#[test]
fn issued_user_token_decodes_to_the_user() {
    let token = issue_for_user(&sample_user(), SECRET, 3_000);
    let claims = decode(&token, SECRET, 3_000).unwrap();
    assert_eq!(claims.sub, "uid-42");
    assert_eq!(claims.name, Some(String::from("alice")));
}

#[test]
fn issued_anonymous_token_decodes_to_the_subject() {
    let (identity, token) = issue_anonymous_at(String::from("anon-7"), SECRET, 3_000);
    assert_eq!(identity.subject, "anon-7");
    assert_eq!(identity.display_name, None);
    let claims = decode(&token, SECRET, 3_000).unwrap();
    assert_eq!(claims.sub, "anon-7");
    assert_eq!(claims.name, None);
}

#[test]
fn issue_anonymous_mints_a_fresh_working_session() {
    let (identity, token) = issue_anonymous(SECRET);
    assert_eq!(identity.subject.len(), 36);
    assert_eq!(identity.display_name, None);
    let now = mint(String::from("probe"), None).iat;
    let claims = decode(&token, SECRET, now).unwrap();
    assert_eq!(claims.sub, identity.subject);
}

#[test]
fn cookie_directive_has_the_stated_attributes() {
    let cookie = build_cookie("abc");
    assert_eq!(cookie, "token=abc; Path=/; SameSite=Lax; HttpOnly");
}

#[test]
fn create_token_cookie_round_trips_at_the_present_moment() {
    let cookie = create_token_cookie(SECRET, "uid-55").unwrap();
    let token = cookie
        .strip_prefix("token=")
        .unwrap()
        .strip_suffix("; Path=/; SameSite=Lax; HttpOnly")
        .unwrap();
    // a moment read from the same clock lies inside the token's window
    let now = mint(String::from("probe"), None).iat;
    let claims = decode(token, SECRET, now).unwrap();
    assert_eq!(claims.sub, "uid-55");
    assert_eq!(claims.name, None);
}

#[test]
fn create_token_cookie_refuses_empty_secret() {
    assert_eq!(create_token_cookie("", "uid"), Err(SigningError::EmptySecret));
}

#[test]
fn message_texts_projects_in_order() {
    let msgs = vec![
        Message { id: String::from("a"), text: String::from("hi"), create_time: 1 },
        Message { id: String::from("b"), text: String::from("there"), create_time: 2 },
    ];
    assert_eq!(message_texts(msgs), vec![String::from("hi"), String::from("there")]);
}
