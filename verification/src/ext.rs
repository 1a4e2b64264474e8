//! The few calls the library takes on trust: signing, the clock, fresh
//! subjects, and turning checked bytes back into a `String`.

use vstd::prelude::*;
use crate::b64::is_b64url_byte;
use vstd::utf8::{decode_utf8, valid_utf8};

verus! {

/// The signature that signing `message` under `secret` yields: an HMAC-SHA256
/// digest in base64url form.  It is a function of the two arguments alone.
pub uninterp spec fn sig_of(message: Seq<u8>, secret: Seq<u8>) -> Seq<u8>;

/// Relies on jsonwebtoken's `crypto::sign` with HS256: it returns the
/// base64url (no padding) HMAC-SHA256 of the message under the secret,
/// deterministically, and cannot fail for an HMAC algorithm.
#[verifier::external_body]
pub fn sign_message(message: &Vec<u8>, secret: &Vec<u8>) -> (r: Vec<u8>)
    ensures
        r@ == sig_of(message@, secret@),
        forall|i: int| 0 <= i < r@.len() ==> is_b64url_byte(#[trigger] r@[i]),
{
    let key = jsonwebtoken::EncodingKey::from_secret(secret.as_slice());
    let sig = jsonwebtoken::crypto::sign(message.as_slice(), &key, jsonwebtoken::Algorithm::HS256)
        .unwrap();
    sig.into_bytes()
}

/// Relies on chrono's `Utc::now().timestamp()`: seconds since the epoch as
/// the wall clock gives them.  Nothing can be promised of a clock reading.
#[verifier::external_body]
pub fn current_timestamp() -> i64 {
    chrono::Utc::now().timestamp()
}

/// Relies on the uuid crate: a fresh random version-4 UUID, displayed in its
/// hyphenated form, which is always 36 characters.
#[verifier::external_body]
pub fn fresh_subject() -> (r: String)
    ensures
        r@.len() == 36,
{
    uuid::Uuid::new_v4().to_string()
}

/// Relies on `String::from_utf8`: it succeeds exactly on valid UTF-8 and
/// returns the string those bytes spell.
#[verifier::external_body]
pub fn bytes_to_string(v: Vec<u8>) -> (r: Option<String>)
    ensures
        r is Some <==> valid_utf8(v@),
        match r {
            Some(s) => s@ == decode_utf8(v@),
            None => true,
        },
{
    match String::from_utf8(v) {
        Ok(s) => Some(s),
        Err(_) => None,
    }
}

} // verus!
