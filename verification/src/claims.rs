//! The claims model: the signed payload shape and its validity window.

use vstd::prelude::*;

verus! {

/// Seconds a freshly minted token stays valid: sixty minutes.
pub const TOKEN_TTL_SECONDS: u64 = 3600;

/// A signed assertion about one subject, bounded in time.
///
/// Claims are immutable once minted; a new token is always a new value.
#[derive(Debug, Clone, PartialEq, Eq)]
pub struct TokenClaims {
    /// Opaque stable subject identifier.
    pub sub: String,
    /// Seconds since the epoch at minting time.
    pub iat: u64,
    /// Seconds since the epoch past which the claims are no longer valid.
    pub exp: u64,
    /// Denormalized username; present only for authenticated subjects.
    pub name: Option<String>,
}

/// The mathematical shape of one claims value.
pub ghost struct ClaimsView {
    pub sub: Seq<char>,
    pub iat: u64,
    pub exp: u64,
    pub name: Option<Seq<char>>,
}

impl View for TokenClaims {
    type V = ClaimsView;

    open spec fn view(&self) -> ClaimsView {
        ClaimsView {
            sub: self.sub@,
            iat: self.iat,
            exp: self.exp,
            name: match self.name {
                Some(n) => Some(n@),
                None => None,
            },
        }
    }
}

impl ClaimsView {
    /// The validity window is never empty.
    pub open spec fn wf(&self) -> bool {
        self.iat < self.exp
    }

    /// Claims are valid at `t` iff `t` lies in the half-open window
    /// `[iat, exp)`.  Signature checking is the codec's job, not this one's.
    pub open spec fn valid_at(&self, t: u64) -> bool {
        self.iat <= t < self.exp
    }
}

impl TokenClaims {
    /// Time-window check for a moment `t`.
    pub fn is_valid(&self, t: u64) -> (r: bool)
        ensures
            r == self@.valid_at(t),
    {
        self.iat <= t && t < self.exp
    }
}

/// Mints claims for `sub` at the moment `now`: issued now, expiring one
/// TTL later.
pub fn mint_at(sub: String, name: Option<String>, now: u64) -> (r: TokenClaims)
    requires
        now + TOKEN_TTL_SECONDS <= u64::MAX,
    ensures
        r@.sub == sub@,
        r@.iat == now,
        r@.exp == now + TOKEN_TTL_SECONDS,
        r@.name == match name {
            Some(n) => Some(n@),
            None => None::<Seq<char>>,
        },
        r@.wf(),
{
    TokenClaims { sub, iat: now, exp: now + TOKEN_TTL_SECONDS, name }
}

/// Mints claims for `sub` at the present moment, as the wall clock gives it.
/// A clock reading before the epoch is treated as the epoch itself.
pub fn mint(sub: String, name: Option<String>) -> (r: TokenClaims)
    ensures
        r@.sub == sub@,
        r@.exp == r@.iat + TOKEN_TTL_SECONDS,
        r@.name == match name {
            Some(n) => Some(n@),
            None => None::<Seq<char>>,
        },
        r@.wf(),
{
    let t = crate::ext::current_timestamp();
    let now: u64 = if t < 0 {
        0
    } else {
        t as u64
    };
    mint_at(sub, name, now)
}

/// Freshly minted claims are valid at their issue time and no longer valid
/// at their expiry time: the window is half-open.
pub proof fn lemma_validity_window(c: ClaimsView)
    requires
        c.wf(),
    ensures
        c.valid_at(c.iat),
        !c.valid_at(c.exp),
{
}

} // verus!
