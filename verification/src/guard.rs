//! The auth guard and the identity extractor.
//!
//! The guard runs before protected handlers: it picks a token candidate
//! (cookie first, `Bearer` header only as a fallback), verifies it, and
//! either attaches the identity, rejects the request, or — on soft routes
//! with no candidate at all — bootstraps an anonymous session and a cookie.
//! The extractor hands a handler the identity the guard attached, without
//! re-parsing anything.

use vstd::prelude::*;
use crate::claims::TOKEN_TTL_SECONDS;
use crate::claims::mint_at;
use crate::codec::{decode, decode_model, encode, token_of};
use crate::ext::{current_timestamp, fresh_subject};
use crate::session::{anon_claims, build_cookie, cookie_value};
use vstd::string::{StrSliceExecFns, StringSliceAdditionalSpecFns};

verus! {

/// Guard- and extractor-facing failures: the three decode errors collapse
/// into one user-facing invalid-token case.
#[derive(Debug, PartialEq, Eq, Structural)]
pub enum AuthError {
    InvalidToken,
    MissingToken,
}

/// The JSON body a guard rejection carries.
pub struct ErrorResponse {
    pub status: String,
    pub message: String,
}

/// What a route does when no valid token is presented: reject hard, or
/// bootstrap an anonymous session.
#[derive(Debug, Clone, Copy, PartialEq, Eq, Structural)]
pub enum RoutePolicy {
    Strict,
    Soft,
}

/// The verified identity attached to one request's lifetime.
#[derive(Debug, Clone)]
pub struct Identity {
    /// The subject the token asserted.
    pub subject: String,
    /// The display name, for tokens minted from a credential lookup.
    pub display_name: Option<String>,
}

/// The mathematical shape of an identity.
pub ghost struct IdentityView {
    pub subject: Seq<char>,
    pub display_name: Option<Seq<char>>,
}

impl View for Identity {
    type V = IdentityView;

    open spec fn view(&self) -> IdentityView {
        IdentityView {
            subject: self.subject@,
            display_name: match self.display_name {
                Some(n) => Some(n@),
                None => None,
            },
        }
    }
}

/// How the guard leaves one request.
pub enum GuardOutcome {
    /// A presented token verified: the handler runs with this identity, and
    /// no cookie is added — the presented token is still good.
    Verified { identity: Identity },
    /// No candidate on a soft route: the handler runs under a fresh
    /// anonymous identity, and the response carries this `Set-Cookie` value.
    AnonymousIssued { identity: Identity, set_cookie: String },
    /// The request ends here with a rejection response; the handler never
    /// runs.
    Rejected { error: AuthError },
}

/// The view of an optional owned string.
pub open spec fn opt_str_view(o: Option<String>) -> Option<Seq<char>> {
    match o {
        Some(s) => Some(s@),
        None => None,
    }
}

/// The view of an optional borrowed string.
pub open spec fn opt_ref_view(o: Option<&String>) -> Option<Seq<char>> {
    match o {
        Some(s) => Some(s@),
        None => None,
    }
}

/// Which token candidate a request offers: the cookie always wins; the
/// `Authorization` header counts only when no cookie came at all, and only
/// with the exact, case-sensitive seven-character `Bearer ` prefix.
pub open spec fn candidate_of(cookie: Option<Seq<char>>, auth: Option<Seq<char>>) -> Option<
    Seq<char>,
> {
    match cookie {
        Some(c) => Some(c),
        None => match auth {
            Some(h) => if h.len() >= 7 && h.subrange(0, 7) == "Bearer "@ {
                Some(h.skip(7))
            } else {
                None
            },
            None => None,
        },
    }
}

/// A cookie value takes precedence over any header, even one that would
/// verify: the header is never consulted once a cookie exists.
pub proof fn lemma_cookie_takes_precedence(cookie: Seq<char>, auth: Seq<char>)
    ensures
        candidate_of(Some(cookie), Some(auth)) == Some(cookie),
{
}

/// Extracts the token candidate from the `token` cookie and the
/// `Authorization` header, by the precedence `candidate_of` states.
pub fn extract_candidate(cookie: Option<&String>, authorization: Option<&String>) -> (r: Option<
    String,
>)
    ensures
        opt_str_view(r) == candidate_of(opt_ref_view(cookie), opt_ref_view(authorization)),
{
    match cookie {
        Some(c) => Some(c.clone()),
        None => match authorization {
            Some(h) => {
                let hs = h.as_str();
                let n = hs.unicode_len();
                if n >= 7 && hs.get_char(0) == 'B' && hs.get_char(1) == 'e' && hs.get_char(2)
                    == 'a' && hs.get_char(3) == 'r' && hs.get_char(4) == 'e' && hs.get_char(5)
                    == 'r' && hs.get_char(6) == ' ' {
                    let rest = hs.substring_char(7, n);
                    proof {
                        reveal_strlit("Bearer ");
                        assert(h@.subrange(0, 7) =~= "Bearer "@);
                        assert(rest@ =~= h@.skip(7));
                    }
                    Some(rest.to_owned())
                } else {
                    proof {
                        reveal_strlit("Bearer ");
                        if h@.len() >= 7 && h@.subrange(0, 7) == "Bearer "@ {
                            assert(h@[0] == 'B' && h@[1] == 'e' && h@[2] == 'a' && h@[3] == 'r'
                                && h@[4] == 'e' && h@[5] == 'r' && h@[6] == ' ') by {
                                assert(forall|k: int|
                                    0 <= k < 7 ==> h@.subrange(0, 7)[k] == #[trigger] h@[k]);
                            }
                        }
                    }
                    None
                }
            },
            None => None,
        },
    }
}

/// What the guard must decide, given the candidate, the policy, the secret,
/// the moment and the anonymous subject on hand.
pub open spec fn guard_post(
    candidate: Option<Seq<char>>,
    policy: RoutePolicy,
    secret: Seq<u8>,
    now: u64,
    anon_subject: Seq<char>,
    r: GuardOutcome,
) -> bool {
    match candidate {
        Some(t) => match decode_model(t, secret, now) {
            Ok(c) => r matches GuardOutcome::Verified { identity } && identity@.subject == c.sub
                && identity@.display_name == c.name,
            Err(_) => r matches GuardOutcome::Rejected { error } && error
                == AuthError::InvalidToken,
        },
        None => match policy {
            RoutePolicy::Strict => r matches GuardOutcome::Rejected { error } && error
                == AuthError::MissingToken,
            RoutePolicy::Soft => r matches GuardOutcome::AnonymousIssued { identity, set_cookie }
                && identity@.subject == anon_subject && identity@.display_name is None
                && set_cookie@ == cookie_value(token_of(anon_claims(anon_subject, now), secret)),
        },
    }
}

/// One request through the guard, with the moment and the fresh subject
/// handed in: verify the candidate, or reject, or bootstrap an anonymous
/// session per the policy.  An empty secret never reaches the guard: it
/// fails process startup.
pub fn guard_core(
    candidate: Option<String>,
    policy: RoutePolicy,
    secret: &str,
    now: u64,
    anon_subject: String,
) -> (r: GuardOutcome)
    requires
        secret@.len() > 0,
        now + TOKEN_TTL_SECONDS <= u64::MAX,
    ensures
        guard_post(opt_str_view(candidate), policy, secret.spec_bytes(), now, anon_subject@, r),
{
    match candidate {
        Some(t) => match decode(t.as_str(), secret, now) {
            Ok(claims) => GuardOutcome::Verified {
                identity: Identity { subject: claims.sub, display_name: claims.name },
            },
            Err(_) => GuardOutcome::Rejected { error: AuthError::InvalidToken },
        },
        None => match policy {
            RoutePolicy::Strict => GuardOutcome::Rejected { error: AuthError::MissingToken },
            RoutePolicy::Soft => {
                let ghost anon_view = anon_subject@;
                let claims = mint_at(anon_subject.clone(), None, now);
                proof {
                    assert(claims@ == anon_claims(anon_view, now));
                }
                let token = match encode(&claims, secret) {
                    Ok(t) => t,
                    Err(_) => unreached(),
                };
                GuardOutcome::AnonymousIssued {
                    identity: Identity { subject: anon_subject, display_name: None },
                    set_cookie: build_cookie(token.as_str()),
                }
            },
        },
    }
}

/// The whole guard for one request: extraction precedence, then the core,
/// with the moment from the clock and the anonymous subject from the UUID
/// source.  Whatever those two return, the outcome follows `guard_post`.
pub fn guard_request(
    cookie: Option<&String>,
    authorization: Option<&String>,
    policy: RoutePolicy,
    secret: &str,
) -> (r: GuardOutcome)
    requires
        secret@.len() > 0,
    ensures
        exists|now: u64, anon: Seq<char>|
            now + TOKEN_TTL_SECONDS <= u64::MAX && #[trigger] guard_post(
                candidate_of(opt_ref_view(cookie), opt_ref_view(authorization)),
                policy,
                secret.spec_bytes(),
                now,
                anon,
                r,
            ),
{
    let candidate = extract_candidate(cookie, authorization);
    let t = current_timestamp();
    let now: u64 = if t < 0 {
        0
    } else {
        t as u64
    };
    let anon = fresh_subject();
    let ghost now_w = now;
    let ghost anon_w = anon@;
    let r = guard_core(candidate, policy, secret, now, anon);
    proof {
        assert(now_w + TOKEN_TTL_SECONDS <= u64::MAX && guard_post(
            candidate_of(opt_ref_view(cookie), opt_ref_view(authorization)),
            policy,
            secret.spec_bytes(),
            now_w,
            anon_w,
            r,
        ));
    }
    r
}

/// A soft route with no candidate at all still runs its handler: the guard
/// bootstraps an anonymous identity and the response carries its cookie.
pub proof fn lemma_soft_guard_bootstraps(
    secret: Seq<u8>,
    now: u64,
    anon: Seq<char>,
    r: GuardOutcome,
)
    requires
        guard_post(None, RoutePolicy::Soft, secret, now, anon, r),
    ensures
        r matches GuardOutcome::AnonymousIssued { identity, set_cookie } && identity@.subject
            == anon && set_cookie@ == cookie_value(token_of(anon_claims(anon, now), secret)),
{
}

/// A candidate that fails to decode — bad signature, malformed, or expired —
/// is rejected as an invalid token; the handler never runs.
pub proof fn lemma_bad_candidate_rejected(
    t: Seq<char>,
    policy: RoutePolicy,
    secret: Seq<u8>,
    now: u64,
    anon: Seq<char>,
    r: GuardOutcome,
)
    requires
        decode_model(t, secret, now) is Err,
        guard_post(Some(t), policy, secret, now, anon, r),
    ensures
        r matches GuardOutcome::Rejected { error } && error == AuthError::InvalidToken,
{
}

/// The response a guard rejection maps to: status 401 with the fail body.
pub fn guard_rejection_response(error: &AuthError) -> (r: (u16, ErrorResponse))
    ensures
        r.0 == 401,
        r.1.status@ == "fail"@,
        match error {
            AuthError::InvalidToken => r.1.message@ == "Invalid token"@,
            AuthError::MissingToken => r.1.message@ == "Missing token"@,
        },
{
    let message = match error {
        AuthError::InvalidToken => String::from_str("Invalid token"),
        AuthError::MissingToken => String::from_str("Missing token"),
    };
    (401, ErrorResponse { status: String::from_str("fail"), message })
}

impl AuthError {
    /// The page-level mapping the extractor's failures use: a bad token is a
    /// client error on the page, a missing one an authorization failure.
    pub fn response_parts(&self) -> (r: (u16, String))
        ensures
            match self {
                AuthError::InvalidToken => r.0 == 400 && r.1@ == "Invalid token"@,
                AuthError::MissingToken => r.0 == 401 && r.1@ == "Missing token."@,
            },
    {
        match self {
            AuthError::InvalidToken => (400, String::from_str("Invalid token")),
            AuthError::MissingToken => (401, String::from_str("Missing token.")),
        }
    }
}

/// The typed accessor protected handlers use: the identity the guard
/// attached to this request, or the missing-token failure when none was.
/// It never re-parses a token and never consults the credential store.
pub fn extract_identity<'a>(ctx: &'a Option<Identity>) -> (r: Result<&'a Identity, AuthError>)
    ensures
        match ctx {
            Some(identity) => r matches Ok(got) && got == identity,
            None => r matches Err(e) && e == AuthError::MissingToken,
        },
{
    match ctx {
        Some(identity) => Ok(identity),
        None => Err(AuthError::MissingToken),
    }
}

} // verus!
