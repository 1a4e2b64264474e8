//! Signed, time-bounded session tokens for a small chat service.
//!
//! Claims carry a subject, an issue time, an expiry time and an optional
//! display name.  The codec turns claims into a compact signed token and
//! back, the guard decides what happens to an incoming request, the session
//! module mints tokens for logins and anonymous visitors, and the chat
//! module holds the plain data the message pages exchange.

pub mod b64;
pub mod chat;
pub mod claims;
pub mod codec;
pub mod ext;
pub mod guard;
pub mod payload;
pub mod session;
