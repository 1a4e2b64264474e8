//! The session issuer and the login step: form validation, the credential
//! check, and turning a verified user or a fresh anonymous identity into a
//! token and a cookie directive.

use vstd::prelude::*;
use crate::claims::{mint_at, ClaimsView, TOKEN_TTL_SECONDS};
use crate::codec::{encode, token_of, SigningError};
use crate::guard::Identity;
use vstd::string::{StrSliceExecFns, StringExecFns, StringSliceAdditionalSpecFns};

verus! {

/// The cookie directive carrying a freshly minted token.
pub open spec fn cookie_value(token: Seq<char>) -> Seq<char> {
    "token="@ + token + "; Path=/; SameSite=Lax; HttpOnly"@
}

/// Builds the `Set-Cookie` value for a token.
pub fn build_cookie(token: &str) -> (r: String)
    ensures
        r@ == cookie_value(token@),
{
    let mut s = String::from_str("token=");
    s.append(token);
    s.append("; Path=/; SameSite=Lax; HttpOnly");
    s
}

/// The claims an anonymous session gets: the fresh subject, no display name,
/// one TTL of validity.
pub open spec fn anon_claims(sub: Seq<char>, now: u64) -> ClaimsView
    recommends
        now + TOKEN_TTL_SECONDS <= u64::MAX,
{
    ClaimsView { sub, iat: now, exp: (now + TOKEN_TTL_SECONDS) as u64, name: None }
}

/// The claims a credential-checked user gets: their stored id as subject and
/// their username as display name.
pub open spec fn user_claims(u: UserView, now: u64) -> ClaimsView
    recommends
        now + TOKEN_TTL_SECONDS <= u64::MAX,
{
    ClaimsView {
        sub: u.uid,
        iat: now,
        exp: (now + TOKEN_TTL_SECONDS) as u64,
        name: Some(u.username),
    }
}

/// A credential record, as the store hands it out.
pub struct User {
    /// Opaque stable user id; the subject of issued tokens.
    pub uid: String,
    /// The name the user logs in with.
    pub username: String,
    /// The stored password.  Plain equality against the submitted secret is
    /// what the store's data supports; a real deployment wants salted, slow
    /// hashes instead.
    pub password: String,
}

/// The mathematical shape of a credential record.
pub ghost struct UserView {
    pub uid: Seq<char>,
    pub username: Seq<char>,
    pub password: Seq<char>,
}

impl View for User {
    type V = UserView;

    open spec fn view(&self) -> UserView {
        UserView { uid: self.uid@, username: self.username@, password: self.password@ }
    }
}

/// What a login form submits.
pub struct LoginData {
    pub username: String,
    pub password: String,
}

/// The mathematical shape of a login form.
pub ghost struct LoginDataView {
    pub username: Seq<char>,
    pub password: Seq<char>,
}

impl View for LoginData {
    type V = LoginDataView;

    open spec fn view(&self) -> LoginDataView {
        LoginDataView { username: self.username@, password: self.password@ }
    }
}

impl LoginDataView {
    /// The form gate: at least three characters of username and eight of
    /// password, before the credential store is ever consulted.
    pub open spec fn valid(&self) -> bool {
        self.username.len() >= 3 && self.password.len() >= 8
    }
}

impl LoginData {
    /// Form validation; a failing form never reaches the credential store.
    pub fn validate(&self) -> (r: bool)
        ensures
            r == self@.valid(),
    {
        self.username.as_str().unicode_len() >= 3 && self.password.as_str().unicode_len() >= 8
    }
}

/// What the login page renders with.
pub struct LoginTemplateData {
    pub error: bool,
}

/// Character-by-character comparison without an early exit on the first
/// mismatch, so the comparison's course does not depend on where secrets
/// differ.  (Their lengths still decide one branch, as any comparison's must.)
pub fn verify_password(submitted: &str, stored: &str) -> (r: bool)
    ensures
        r == (submitted@ == stored@),
{
    let n = submitted.unicode_len();
    if n != stored.unicode_len() {
        proof {
            assert(submitted@ != stored@);
        }
        return false;
    }
    let mut differs = false;
    let mut i: usize = 0;
    while i < n
        invariant
            n == submitted@.len(),
            n == stored@.len(),
            i <= n,
            differs == exists|m: int| 0 <= m < i && submitted@[m] != stored@[m],
        decreases n - i,
    {
        let a = submitted.get_char(i);
        let b = stored.get_char(i);
        if a != b {
            differs = true;
        }
        i = i + 1;
    }
    if differs {
        proof {
            let m = choose|m: int| 0 <= m < i && submitted@[m] != stored@[m];
            assert(submitted@[m] != stored@[m]);
        }
        false
    } else {
        proof {
            assert(submitted@ =~= stored@);
        }
        true
    }
}

/// The decision after the store lookup: a record whose password equals the
/// submitted one passes; a missing record and a wrong password both fail.
pub fn check_credentials(form: &LoginData, record: Option<User>) -> (r: Option<User>)
    ensures
        match record {
            Some(u) => if u@.password == form@.password {
                r matches Some(x) && x == u
            } else {
                r is None
            },
            None => r is None,
        },
{
    match record {
        Some(u) => {
            if verify_password(form.password.as_str(), u.password.as_str()) {
                Some(u)
            } else {
                None
            }
        },
        None => None,
    }
}

/// How one login attempt ends.
pub enum LoginOutcome {
    /// The form failed its length gate: the validation-error page.
    ValidationFailed,
    /// Unknown username, lookup fault, or wrong password: one outcome for
    /// all three.  The conflation resists username enumeration, though
    /// whether it was chosen for that is an open question; it is kept as is.
    BadCredentials,
    /// A session was issued; attach this cookie and proceed.
    Success { set_cookie: String },
}

/// What finishing a login must yield, given the form, the store's answer,
/// the secret and the moment.
pub open spec fn login_post(
    form: LoginDataView,
    record: Option<UserView>,
    secret: Seq<u8>,
    now: u64,
    r: LoginOutcome,
) -> bool {
    if !form.valid() {
        r is ValidationFailed
    } else {
        match record {
            None => r is BadCredentials,
            Some(u) => if u.password != form.password {
                r is BadCredentials
            } else {
                r matches LoginOutcome::Success { set_cookie } && set_cookie@ == cookie_value(
                    token_of(user_claims(u, now), secret),
                )
            },
        }
    }
}

/// Finishes a login once the store has answered: validate the form, check
/// the password, and mint the session.  The store's answer is `None` both
/// for an unknown username and for a lookup fault; the outcome does not tell
/// those or a wrong password apart (see `LoginOutcome::BadCredentials`).
pub fn login_finish(form: &LoginData, record: Option<User>, secret: &str, now: u64) -> (r:
    LoginOutcome)
    requires
        secret@.len() > 0,
        now + TOKEN_TTL_SECONDS <= u64::MAX,
    ensures
        login_post(
            form@,
            match record {
                Some(u) => Some(u@),
                None => None,
            },
            secret.spec_bytes(),
            now,
            r,
        ),
{
    if !form.validate() {
        return LoginOutcome::ValidationFailed;
    }
    let user = match check_credentials(form, record) {
        Some(u) => u,
        None => {
            return LoginOutcome::BadCredentials;
        },
    };
    let ghost uv = user@;
    let claims = mint_at(user.uid, Some(user.username), now);
    proof {
        assert(claims@ == user_claims(uv, now));
    }
    let token = match encode(&claims, secret) {
        Ok(t) => t,
        Err(_) => unreached(),
    };
    LoginOutcome::Success { set_cookie: build_cookie(token.as_str()) }
}

/// Issues a token for a credential-checked user: subject from the stored id,
/// display name from the username, one TTL of validity from `now`.
pub fn issue_for_user(user: &User, secret: &str, now: u64) -> (r: String)
    requires
        secret@.len() > 0,
        now + TOKEN_TTL_SECONDS <= u64::MAX,
    ensures
        r@ == token_of(user_claims(user@, now), secret.spec_bytes()),
{
    let claims = mint_at(user.uid.clone(), Some(user.username.clone()), now);
    proof {
        assert(claims@ == user_claims(user@, now));
    }
    match encode(&claims, secret) {
        Ok(t) => t,
        Err(_) => unreached(),
    }
}

/// Issues a fresh anonymous session at `now`: the identity and a token for
/// it, so a guard can attach both without a second decode.
pub fn issue_anonymous_at(subject: String, secret: &str, now: u64) -> (r: (Identity, String))
    requires
        secret@.len() > 0,
        now + TOKEN_TTL_SECONDS <= u64::MAX,
    ensures
        r.0@.subject == subject@,
        r.0@.display_name is None,
        r.1@ == token_of(anon_claims(subject@, now), secret.spec_bytes()),
{
    let claims = mint_at(subject.clone(), None, now);
    proof {
        assert(claims@ == anon_claims(subject@, now));
    }
    let token = match encode(&claims, secret) {
        Ok(t) => t,
        Err(_) => unreached(),
    };
    (Identity { subject, display_name: None }, token)
}

/// Issues a fresh anonymous session at the present moment, with a subject
/// from the UUID source: whatever subject and moment came back, the token is
/// the one minted for them.
pub fn issue_anonymous(secret: &str) -> (r: (Identity, String))
    requires
        secret@.len() > 0,
    ensures
        r.0@.display_name is None,
        exists|now: u64|
            now + TOKEN_TTL_SECONDS <= u64::MAX && r.1@ == #[trigger] token_of(
                anon_claims(r.0@.subject, now),
                secret.spec_bytes(),
            ),
{
    let subject = crate::ext::fresh_subject();
    let t = crate::ext::current_timestamp();
    let now: u64 = if t < 0 {
        0
    } else {
        t as u64
    };
    issue_anonymous_at(subject, secret, now)
}

/// Builds the cookie directive for a fresh anonymous token minted for `uid`
/// at the present moment, as the wall clock gives it.
pub fn create_token_cookie(jwt_secret: &str, uid: &str) -> (r: Result<String, SigningError>)
    ensures
        jwt_secret@.len() == 0 <==> r matches Err(SigningError::EmptySecret),
        jwt_secret@.len() > 0 ==> (r matches Ok(cookie) && exists|now: u64|
            now + TOKEN_TTL_SECONDS <= u64::MAX && cookie@ == cookie_value(
                #[trigger] token_of(anon_claims(uid@, now), jwt_secret.spec_bytes()),
            )),
{
    if jwt_secret.is_empty() {
        return Err(SigningError::EmptySecret);
    }
    let t = crate::ext::current_timestamp();
    let now: u64 = if t < 0 {
        0
    } else {
        t as u64
    };
    let claims = mint_at(String::from_str(uid), None, now);
    proof {
        assert(claims@ == anon_claims(uid@, now));
    }
    let token = match encode(&claims, jwt_secret) {
        Ok(t2) => t2,
        Err(_) => unreached(),
    };
    Ok(build_cookie(token.as_str()))
}

/// A failing form ends every login the same way, whatever the store would
/// have answered: too short a username never opens an account's fate to
/// observation.
pub proof fn lemma_invalid_form_rejected(
    form: LoginDataView,
    record: Option<UserView>,
    secret: Seq<u8>,
    now: u64,
    r: LoginOutcome,
)
    requires
        !form.valid(),
        login_post(form, record, secret, now, r),
    ensures
        r is ValidationFailed,
{
}

/// A session the issuer mints is accepted on later requests until it
/// expires: the anonymous token behind a fresh cookie decodes, under the
/// same secret, to the claims it was minted with, at every moment before
/// their expiry.  The signature hypothesis holds of every signature the
/// signer returns.
pub proof fn lemma_issued_session_verifies(sub: Seq<char>, secret: Seq<u8>, now: u64, later: u64)
    requires
        now + TOKEN_TTL_SECONDS <= u64::MAX,
        later < now + TOKEN_TTL_SECONDS,
        crate::codec::sig_in_alphabet(
            crate::ext::sig_of(crate::codec::message_of(anon_claims(sub, now)), secret),
        ),
    ensures
        crate::codec::decode_model(token_of(anon_claims(sub, now), secret), secret, later)
            == Ok::<ClaimsView, crate::codec::TokenError>(anon_claims(sub, now)),
{
    crate::codec::lemma_codec_round_trip(anon_claims(sub, now), secret, later);
}

/// An unknown username and a wrong password for a known one end in the same
/// outcome: the two cannot be told apart from the response.
pub proof fn lemma_unknown_user_indistinguishable(
    form: LoginDataView,
    u: UserView,
    secret: Seq<u8>,
    now: u64,
    r_missing: LoginOutcome,
    r_wrong: LoginOutcome,
)
    requires
        u.password != form.password,
        login_post(form, None, secret, now, r_missing),
        login_post(form, Some(u), secret, now, r_wrong),
    ensures
        r_missing == r_wrong,
{
    if form.valid() {
        assert(r_missing is BadCredentials && r_wrong is BadCredentials);
    }
}

} // verus!
