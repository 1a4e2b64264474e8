//! The token codec: claims to a compact signed token and back.
//!
//! A token is `base64url(header) "." base64url(payload) "." signature`, all
//! ASCII.  Encoding is deterministic for given claims and secret.  Decoding
//! checks the shape, the signature and the expiry, in that order, and hands
//! back exactly the claims that were encoded.

use vstd::prelude::*;
use crate::b64;
use crate::claims::{ClaimsView, TokenClaims};
use crate::ext::{bytes_to_string, sig_of, sign_message};
use crate::payload::{
    lemma_payload_complete, lemma_payload_sound, parse_payload, payload_of, spec_parse_payload,
    write_payload,
};
use vstd::string::{StrSliceExecFns, StringSliceAdditionalSpecFns};
use vstd::utf8::{
    decode_utf8, encode_utf8, is_leading_byte_width_1, partial_valid_utf8,
    partial_valid_utf8_extend_ascii_block, valid_utf8,
};

verus! {

/// Why a token failed to decode.
#[derive(Debug, PartialEq, Eq, Structural)]
pub enum TokenError {
    /// The token is not something this codec could have produced.
    Malformed,
    /// The signature does not match the message under the given secret.
    BadSignature,
    /// Signature and shape are good, but the validity window has lapsed.
    Expired,
}

/// Why a token could not be minted.
#[derive(Debug, PartialEq, Eq, Structural)]
pub enum SigningError {
    /// An empty secret is a configuration fault, not a signable key.
    EmptySecret,
}

/// The bytes of the fixed header `{"typ":"JWT","alg":"HS256"}`.
pub open spec fn header_json() -> Seq<u8> {
    seq![
        123u8, 34, 116, 121, 112, 34, 58, 34, 74, 87, 84, 34, 44, 34, 97, 108, 103, 34, 58, 34,
        72, 83, 50, 53, 54, 34, 125,
    ]
}

/// The header segment of every token: the header, base64url-encoded.
pub open spec fn header_b64() -> Seq<u8> {
    b64::spec_encode(header_json())
}

/// The signed part of a token for the given claims: header segment, dot,
/// payload segment.
pub open spec fn message_of(c: ClaimsView) -> Seq<u8> {
    header_b64() + seq![46u8] + b64::spec_encode(payload_of(c))
}

/// A whole token for the given claims and secret, as bytes.
pub open spec fn token_bytes_of(c: ClaimsView, secret: Seq<u8>) -> Seq<u8> {
    message_of(c) + seq![46u8] + sig_of(message_of(c), secret)
}

/// A whole token for the given claims and secret, as the characters of the
/// string that carries it.
pub open spec fn token_of(c: ClaimsView, secret: Seq<u8>) -> Seq<char> {
    decode_utf8(token_bytes_of(c, secret))
}

/// The signature segment lies in the base64url alphabet.  This holds of
/// every signature the signer returns; lemmas about minted tokens assume it.
pub open spec fn sig_in_alphabet(sig: Seq<u8>) -> bool {
    forall|k: int| 0 <= k < sig.len() ==> b64::is_b64url_byte(#[trigger] sig[k])
}

/// `i` and `j` are the positions of the only two dots in `s`.
pub open spec fn is_dot_split(s: Seq<u8>, i: int, j: int) -> bool {
    &&& 0 <= i < j < s.len()
    &&& s[i] == 46
    &&& s[j] == 46
    &&& forall|k: int| 0 <= k < s.len() && k != i && k != j ==> s[k] != 46
}

/// A byte sequence has at most one way to split on exactly two dots.
pub proof fn lemma_dot_split_unique(s: Seq<u8>, i1: int, j1: int, i2: int, j2: int)
    requires
        is_dot_split(s, i1, j1),
        is_dot_split(s, i2, j2),
    ensures
        i1 == i2 && j1 == j2,
{
    assert(i1 == i2 || i1 == j2) by {
        if i1 != i2 && i1 != j2 {
            assert(s[i1] != 46);
        }
    }
    assert(j1 == i2 || j1 == j2) by {
        if j1 != i2 && j1 != j2 {
            assert(s[j1] != 46);
        }
    }
    assert(i2 == i1 || i2 == j1) by {
        if i2 != i1 && i2 != j1 {
            assert(s[i2] != 46);
        }
    }
}

/// Having no two-dot split carries over between equal byte sequences.
proof fn lemma_no_split_transfer(a: Seq<u8>, b: Seq<u8>)
    requires
        b == a,
        !(exists|i: int, j: int| is_dot_split(a, i, j)),
    ensures
        !(exists|i: int, j: int| is_dot_split(b, i, j)),
{
    if exists|i: int, j: int| is_dot_split(b, i, j) {
        let (i, j) = choose|i: int, j: int| is_dot_split(b, i, j);
        assert(is_dot_split(a, i, j));
        assert(false);
    }
}

/// What decoding a token under a secret at a moment yields.  Exactly one
/// shape is accepted: the two-dot split, the fixed header segment, a strict
/// base64url payload segment that parses as a payload with valid UTF-8
/// strings.  Then the signature must match the message, and the moment must
/// lie before the expiry.
pub open spec fn decode_model(t: Seq<char>, secret: Seq<u8>, now: u64) -> Result<
    ClaimsView,
    TokenError,
> {
    let s = encode_utf8(t);
    if !(exists|i: int, j: int| is_dot_split(s, i, j)) {
        Err(TokenError::Malformed)
    } else {
        let (i, j) = choose|i: int, j: int| is_dot_split(s, i, j);
        let p64 = s.subrange(i + 1, j);
        let sig = s.subrange(j + 1, s.len() as int);
        if s.subrange(0, i) != header_b64() {
            Err(TokenError::Malformed)
        } else {
            match b64::spec_decode(p64) {
                None => Err(TokenError::Malformed),
                Some(p) => match spec_parse_payload(p) {
                    None => Err(TokenError::Malformed),
                    Some(pv) => if !valid_utf8(pv.sub) || (match pv.name {
                        Some(n) => !valid_utf8(n),
                        None => false,
                    }) {
                        Err(TokenError::Malformed)
                    } else if sig != sig_of(s.subrange(0, j), secret) {
                        Err(TokenError::BadSignature)
                    } else if now >= pv.exp {
                        Err(TokenError::Expired)
                    } else {
                        Ok(
                            ClaimsView {
                                sub: decode_utf8(pv.sub),
                                iat: pv.iat,
                                exp: pv.exp,
                                name: match pv.name {
                                    Some(n) => Some(decode_utf8(n)),
                                    None => None,
                                },
                            },
                        )
                    },
                },
            }
        }
    }
}

/// A sequence of bytes below 128 is valid UTF-8.
pub proof fn lemma_ascii_valid_utf8(s: Seq<u8>)
    requires
        forall|k: int| 0 <= k < s.len() ==> #[trigger] s[k] < 128,
    ensures
        valid_utf8(s),
{
    assert(s.subrange(0, 0) =~= Seq::<u8>::empty());
    assert(partial_valid_utf8(s, 0));
    assert forall|i: int|
        0 <= 0 <= i < s.len() <= s.len() implies is_leading_byte_width_1(#[trigger] s[i]) by {
        assert(s[i] < 128);
    }
    partial_valid_utf8_extend_ascii_block(s, 0, s.len() as int);
    assert(s.subrange(0, s.len() as int) =~= s);
}

/// The bytes of the fixed header.
fn header_json_vec() -> (r: Vec<u8>)
    ensures
        r@ == header_json(),
{
    let mut v: Vec<u8> = Vec::new();
    v.push(123);
    v.push(34);
    v.push(116);
    v.push(121);
    v.push(112);
    v.push(34);
    v.push(58);
    v.push(34);
    v.push(74);
    v.push(87);
    v.push(84);
    v.push(34);
    v.push(44);
    v.push(34);
    v.push(97);
    v.push(108);
    v.push(103);
    v.push(34);
    v.push(58);
    v.push(34);
    v.push(72);
    v.push(83);
    v.push(50);
    v.push(53);
    v.push(54);
    v.push(34);
    v.push(125);
    proof {
        assert(v@ =~= header_json());
    }
    v
}

/// Appends all of `src` to `dst`.
fn append_bytes(dst: &mut Vec<u8>, src: &Vec<u8>)
    ensures
        final(dst)@ == old(dst)@ + src@,
{
    let mut k: usize = 0;
    proof {
        assert(old(dst)@ + src@.subrange(0, 0) =~= old(dst)@);
    }
    while k < src.len()
        invariant
            k <= src@.len(),
            dst@ == old(dst)@ + src@.subrange(0, k as int),
        decreases src@.len() - k,
    {
        dst.push(src[k]);
        proof {
            assert(old(dst)@ + src@.subrange(0, k as int + 1) =~= dst@);
        }
        k = k + 1;
    }
    proof {
        assert(src@.subrange(0, src@.len() as int) =~= src@);
    }
}

/// Extracts `v[from..to]` as a fresh vector.
fn copy_range(v: &Vec<u8>, from: usize, to: usize) -> (r: Vec<u8>)
    requires
        from <= to <= v@.len(),
    ensures
        r@ == v@.subrange(from as int, to as int),
{
    let mut out: Vec<u8> = Vec::new();
    let mut k: usize = from;
    while k < to
        invariant
            from <= k <= to <= v@.len(),
            out@ == v@.subrange(from as int, k as int),
        decreases to - k,
    {
        out.push(v[k]);
        proof {
            assert(v@.subrange(from as int, k as int + 1) =~= out@);
        }
        k = k + 1;
    }
    proof {
        assert(out@ =~= v@.subrange(from as int, to as int));
    }
    out
}

/// Whether two byte vectors hold the same bytes.
fn bytes_eq(a: &Vec<u8>, b: &Vec<u8>) -> (r: bool)
    ensures
        r == (a@ == b@),
{
    if a.len() != b.len() {
        proof {
            assert(a@ != b@);
        }
        return false;
    }
    let mut k: usize = 0;
    while k < a.len()
        invariant
            a@.len() == b@.len(),
            k <= a@.len(),
            forall|m: int| 0 <= m < k ==> a@[m] == b@[m],
        decreases a@.len() - k,
    {
        if a[k] != b[k] {
            return false;
        }
        k = k + 1;
    }
    proof {
        assert(a@ =~= b@);
    }
    true
}

/// Encodes claims into a signed token under `secret`.  Deterministic: the
/// same claims and secret always give the same token.  An empty secret is
/// refused; nothing else fails.
pub fn encode(claims: &TokenClaims, secret: &str) -> (r: Result<String, SigningError>)
    ensures
        secret@.len() == 0 <==> r matches Err(SigningError::EmptySecret),
        secret@.len() > 0 ==> (r matches Ok(t) && t@ == token_of(
            claims@,
            secret.spec_bytes(),
        ) && valid_utf8(token_bytes_of(claims@, secret.spec_bytes()))),
{
    if secret.is_empty() {
        return Err(SigningError::EmptySecret);
    }
    let hj = header_json_vec();
    let mut msg = b64::encode(&hj);
    msg.push(46);
    let p = write_payload(claims);
    let p64 = b64::encode(&p);
    append_bytes(&mut msg, &p64);
    proof {
        assert(msg@ =~= message_of(claims@));
    }
    let secret_bytes = secret.as_bytes_vec();
    let sig = sign_message(&msg, &secret_bytes);
    let mut tok = msg;
    tok.push(46);
    append_bytes(&mut tok, &sig);
    proof {
        assert(tok@ =~= token_bytes_of(claims@, secret.spec_bytes()));
        assert forall|k: int| 0 <= k < tok@.len() implies #[trigger] tok@[k] < 128 by {
            b64::lemma_encode_alphabet(header_json());
            b64::lemma_encode_alphabet(payload_of(claims@));
            let hl = header_b64().len() as int;
            let pl = b64::spec_encode(payload_of(claims@)).len() as int;
            if k < hl {
                assert(tok@[k] == header_b64()[k]);
            } else if k == hl {
                assert(tok@[k] == 46);
            } else if k < hl + 1 + pl {
                assert(tok@[k] == b64::spec_encode(payload_of(claims@))[k - hl - 1]);
            } else if k == hl + 1 + pl {
                assert(tok@[k] == 46);
            } else {
                assert(tok@[k] == sig_of(message_of(claims@), secret.spec_bytes())[k - (hl + 1 + pl
                    + 1)]);
            }
        }
        lemma_ascii_valid_utf8(tok@);
    }
    match bytes_to_string(tok) {
        Some(s) => Ok(s),
        None => unreached(),
    }
}

/// Decodes and checks a token under `secret` at the moment `now`, yielding
/// the claims it carries or the first failure the model gives.
pub fn decode(token: &str, secret: &str, now: u64) -> (r: Result<TokenClaims, TokenError>)
    ensures
        match r {
            Ok(c) => decode_model(token@, secret.spec_bytes(), now) == Ok::<
                ClaimsView,
                TokenError,
            >(c@),
            Err(e) => decode_model(token@, secret.spec_bytes(), now) == Err::<
                ClaimsView,
                TokenError,
            >(e),
        },
{
    let s = token.as_bytes_vec();
    proof {
        assert(s@ == encode_utf8(token@));
    }
    // find the dots; more or fewer than two means no valid shape
    let mut count: usize = 0;
    let mut d1: usize = 0;
    let mut d2: usize = 0;
    let mut k: usize = 0;
    while k < s.len()
        invariant
            k <= s@.len(),
            s@ == encode_utf8(token@),
            count <= 2,
            count == 0 ==> forall|m: int| 0 <= m < k ==> s@[m] != 46,
            count == 1 ==> d1 < k && s@[d1 as int] == 46 && forall|m: int|
                0 <= m < k && m != d1 ==> s@[m] != 46,
            count == 2 ==> d1 < d2 && d2 < k && s@[d1 as int] == 46 && s@[d2 as int] == 46
                && forall|m: int| 0 <= m < k && m != d1 && m != d2 ==> s@[m] != 46,
        decreases s@.len() - k,
    {
        if s[k] == 46 {
            if count == 0 {
                d1 = k;
                count = 1;
            } else if count == 1 {
                d2 = k;
                count = 2;
            } else {
                // a third dot: no two-dot split exists
                proof {
                    assert(!(exists|i: int, j: int| is_dot_split(s@, i, j))) by {
                        if exists|i: int, j: int| is_dot_split(s@, i, j) {
                            let (i, j) = choose|i: int, j: int| is_dot_split(s@, i, j);
                            assert(d1 as int == i || d1 as int == j);
                            assert(d2 as int == i || d2 as int == j);
                            assert(k as int == i || k as int == j);
                            assert(false);
                        }
                    }
                    lemma_no_split_transfer(s@, encode_utf8(token@));
                }
                return Err(TokenError::Malformed);
            }
        }
        k = k + 1;
    }
    if count != 2 {
        proof {
            assert(!(exists|i: int, j: int| is_dot_split(s@, i, j))) by {
                if exists|i: int, j: int| is_dot_split(s@, i, j) {
                    let (i, j) = choose|i: int, j: int| is_dot_split(s@, i, j);
                    if count == 1 {
                        assert(i == d1 && j == d1);
                        assert(false);
                    } else {
                        assert(s@[i] == 46);
                        assert(false);
                    }
                }
            }
            lemma_no_split_transfer(s@, encode_utf8(token@));
        }
        return Err(TokenError::Malformed);
    }
    let ghost tb = encode_utf8(token@);
    let ghost di = d1 as int;
    let ghost dj = d2 as int;
    proof {
        assert(is_dot_split(s@, di, dj));
        assert(is_dot_split(tb, di, dj));
        let (ci, cj) = choose|i: int, j: int| is_dot_split(tb, i, j);
        lemma_dot_split_unique(tb, ci, cj, di, dj);
    }
    // header segment
    let h = copy_range(&s, 0, d1);
    let hj = header_json_vec();
    let h64 = b64::encode(&hj);
    if !bytes_eq(&h, &h64) {
        proof {
            assert(tb.subrange(0, di) == h@);
        }
        return Err(TokenError::Malformed);
    }
    // payload segment
    proof {
        assert(tb.subrange(0, di) == h@);
    }
    let p64 = copy_range(&s, d1 + 1, d2);
    proof {
        assert(tb.subrange(di + 1, dj) == p64@);
    }
    let p = match b64::decode(&p64) {
        Some(p) => p,
        None => {
            return Err(TokenError::Malformed);
        },
    };
    let parsed = match parse_payload(&p) {
        Some(q) => q,
        None => {
            return Err(TokenError::Malformed);
        },
    };
    let ghost pv = parsed@;
    let sub = match bytes_to_string(parsed.sub) {
        Some(x) => x,
        None => {
            return Err(TokenError::Malformed);
        },
    };
    let name = match parsed.name {
        Some(nb) => match bytes_to_string(nb) {
            Some(x) => Some(x),
            None => {
                return Err(TokenError::Malformed);
            },
        },
        None => None,
    };
    // signature: re-sign the message and compare
    let msg = copy_range(&s, 0, d2);
    let secret_bytes = secret.as_bytes_vec();
    let expected = sign_message(&msg, &secret_bytes);
    let sig = copy_range(&s, d2 + 1, s.len());
    proof {
        assert(tb.subrange(0, dj) == msg@);
        assert(tb.subrange(dj + 1, tb.len() as int) == sig@);
    }
    if !bytes_eq(&sig, &expected) {
        return Err(TokenError::BadSignature);
    }
    // expiry
    if now >= parsed.exp {
        return Err(TokenError::Expired);
    }
    Ok(TokenClaims { sub, iat: parsed.iat, exp: parsed.exp, name })
}


/// Bytes in the base64url alphabet are ASCII and are not dots.
proof fn lemma_alphabet_ascii_dot_free(sig: Seq<u8>)
    requires
        sig_in_alphabet(sig),
    ensures
        forall|k: int| 0 <= k < sig.len() ==> #[trigger] sig[k] < 128,
        forall|k: int| 0 <= k < sig.len() ==> #[trigger] sig[k] != 46,
{
    assert forall|k: int| 0 <= k < sig.len() implies #[trigger] sig[k] < 128 && sig[k] != 46 by {
        assert(b64::is_b64url_byte(sig[k]));
    }
}

/// What decoding yields on a token whose message was minted for claims `c`
/// and whose signature segment is any dot-free ASCII byte sequence: a bad
/// signature unless it is the minted one, then expiry, then the claims.
proof fn lemma_decode_minted(c: ClaimsView, secret: Seq<u8>, now: u64, sig: Seq<u8>)
    requires
        forall|k: int| 0 <= k < sig.len() ==> #[trigger] sig[k] < 128,
        forall|k: int| 0 <= k < sig.len() ==> #[trigger] sig[k] != 46,
    ensures
        decode_model(decode_utf8(message_of(c) + seq![46u8] + sig), secret, now) == (if sig
            != sig_of(message_of(c), secret) {
            Err::<ClaimsView, TokenError>(TokenError::BadSignature)
        } else if now >= c.exp {
            Err::<ClaimsView, TokenError>(TokenError::Expired)
        } else {
            Ok::<ClaimsView, TokenError>(c)
        }),
{
    broadcast use vstd::utf8::decode_utf8_encode_utf8;
    broadcast use vstd::utf8::encode_utf8_decode_utf8;
    broadcast use vstd::utf8::encode_utf8_valid_utf8;

    let tb = message_of(c) + seq![46u8] + sig;
    let hl = header_b64().len() as int;
    let pl = b64::spec_encode(payload_of(c)).len() as int;
    let i0 = hl;
    let j0 = hl + 1 + pl;
    b64::lemma_encode_alphabet(header_json());
    b64::lemma_encode_alphabet(payload_of(c));
    assert forall|k: int| 0 <= k < tb.len() implies #[trigger] tb[k] < 128 by {
        if k < hl {
            assert(tb[k] == header_b64()[k]);
            assert(b64::is_b64url_byte(tb[k]));
        } else if k == hl {
            assert(tb[k] == 46);
        } else if k < j0 {
            assert(tb[k] == b64::spec_encode(payload_of(c))[k - hl - 1]);
            assert(b64::is_b64url_byte(tb[k]));
        } else if k == j0 {
            assert(tb[k] == 46);
        } else {
            assert(tb[k] == sig[k - j0 - 1]);
        }
    }
    lemma_ascii_valid_utf8(tb);
    let sm = encode_utf8(decode_utf8(tb));
    assert(sm == tb);
    assert(is_dot_split(sm, i0, j0)) by {
        assert(sm[i0] == tb[i0] && tb[i0] == 46);
        assert(sm[j0] == tb[j0] && tb[j0] == 46);
        assert forall|k: int| 0 <= k < sm.len() && k != i0 && k != j0 implies sm[k] != 46 by {
            assert(sm[k] == tb[k]);
            if k < hl {
                assert(tb[k] == header_b64()[k]);
                assert(b64::is_b64url_byte(tb[k]));
            } else if k < j0 {
                assert(tb[k] == b64::spec_encode(payload_of(c))[k - hl - 1]);
                assert(b64::is_b64url_byte(tb[k]));
            } else {
                assert(tb[k] == sig[k - j0 - 1]);
            }
        }
    }
    let (ci, cj) = choose|i: int, j: int| is_dot_split(sm, i, j);
    lemma_dot_split_unique(sm, ci, cj, i0, j0);
    assert(sm.subrange(0, i0) =~= header_b64());
    assert(sm.subrange(i0 + 1, j0) =~= b64::spec_encode(payload_of(c)));
    assert(sm.subrange(j0 + 1, sm.len() as int) =~= sig);
    assert(sm.subrange(0, j0) =~= message_of(c));
    b64::lemma_decode_encode(payload_of(c));
    lemma_payload_complete(c);
    let pv = spec_parse_payload(payload_of(c))->Some_0;
    assert(valid_utf8(pv.sub));
    assert(decode_utf8(pv.sub) == c.sub);
    match c.name {
        Some(n) => {
            assert(pv.name == Some(encode_utf8(n)));
            assert(valid_utf8(encode_utf8(n)));
            assert(decode_utf8(encode_utf8(n)) == n);
        },
        None => {
            assert(pv.name is None);
        },
    }
    if sig == sig_of(message_of(c), secret) && now < c.exp {
        assert(decode_model(decode_utf8(tb), secret, now) == Ok::<ClaimsView, TokenError>(
            ClaimsView {
                sub: decode_utf8(pv.sub),
                iat: pv.iat,
                exp: pv.exp,
                name: match pv.name {
                    Some(nb) => Some(decode_utf8(nb)),
                    None => None,
                },
            },
        ));
        assert(ClaimsView {
            sub: decode_utf8(pv.sub),
            iat: pv.iat,
            exp: pv.exp,
            name: match pv.name {
                Some(nb) => Some(decode_utf8(nb)),
                None => None,
            },
        } == c);
    }
}

/// Round trip: a token minted for claims under a secret decodes, under the
/// same secret and at any moment before expiry, to exactly those claims.
/// The signature hypothesis — base64url bytes — holds of every signature the
/// signer returns.
pub proof fn lemma_codec_round_trip(c: ClaimsView, secret: Seq<u8>, now: u64)
    requires
        now < c.exp,
        sig_in_alphabet(sig_of(message_of(c), secret)),
    ensures
        decode_model(token_of(c, secret), secret, now) == Ok::<ClaimsView, TokenError>(c),
{
    lemma_alphabet_ascii_dot_free(sig_of(message_of(c), secret));
    lemma_decode_minted(c, secret, now, sig_of(message_of(c), secret));
}

/// Tampering: a token whose message was minted for claims `c` but whose
/// signature segment is anything else — any dot-free ASCII alteration — is
/// rejected with `BadSignature`, whatever the moment.
pub proof fn lemma_tampered_signature(c: ClaimsView, secret: Seq<u8>, now: u64, sig: Seq<u8>)
    requires
        sig_in_alphabet(sig),
        sig != sig_of(message_of(c), secret),
    ensures
        decode_model(decode_utf8(message_of(c) + seq![46u8] + sig), secret, now) == Err::<
            ClaimsView,
            TokenError,
        >(TokenError::BadSignature),
{
    lemma_alphabet_ascii_dot_free(sig);
    lemma_decode_minted(c, secret, now, sig);
}

/// Expiry: a minted token decodes to `Expired`, never `Ok`, at any moment at
/// or past its expiry — a token minted by a backdated clock stays rejected.
pub proof fn lemma_expired_token(c: ClaimsView, secret: Seq<u8>, now: u64)
    requires
        now >= c.exp,
        sig_in_alphabet(sig_of(message_of(c), secret)),
    ensures
        decode_model(token_of(c, secret), secret, now) == Err::<ClaimsView, TokenError>(
            TokenError::Expired,
        ),
{
    lemma_alphabet_ascii_dot_free(sig_of(message_of(c), secret));
    lemma_decode_minted(c, secret, now, sig_of(message_of(c), secret));
}


/// Canonicity: an accepted token is, character for character, the very token
/// this codec mints for the claims it yields under that secret.  Nothing but
/// minted tokens is ever accepted.
#[verifier::rlimit(100)]
pub proof fn lemma_token_canonical(t: Seq<char>, secret: Seq<u8>, now: u64, c: ClaimsView)
    requires
        decode_model(t, secret, now) == Ok::<ClaimsView, TokenError>(c),
    ensures
        encode_utf8(t) == token_bytes_of(c, secret),
        t == token_of(c, secret),
{
    broadcast use vstd::utf8::decode_utf8_encode_utf8;
    broadcast use vstd::utf8::encode_utf8_decode_utf8;

    let s = encode_utf8(t);
    assert(exists|i: int, j: int| is_dot_split(s, i, j)) by {
        if !(exists|i: int, j: int| is_dot_split(s, i, j)) {
            assert(decode_model(t, secret, now) is Err);
        }
    }
    let (i, j) = choose|i: int, j: int| is_dot_split(s, i, j);
    assert(is_dot_split(s, i, j));
    let p64 = s.subrange(i + 1, j);
    let sig = s.subrange(j + 1, s.len() as int);
    assert(s.subrange(0, i) == header_b64());
    let p = b64::spec_decode(p64)->Some_0;
    assert(b64::spec_decode(p64) == Some(p));
    b64::lemma_encode_decode(p64, p);
    let pv = spec_parse_payload(p)->Some_0;
    assert(spec_parse_payload(p) == Some(pv));
    assert(valid_utf8(pv.sub));
    lemma_payload_sound(p, pv);
    assert(c == ClaimsView {
        sub: decode_utf8(pv.sub),
        iat: pv.iat,
        exp: pv.exp,
        name: match pv.name {
            Some(nb) => Some(decode_utf8(nb)),
            None => None,
        },
    });
    assert(p == payload_of(c));
    assert(sig == sig_of(s.subrange(0, j), secret));
    assert(s.subrange(0, j) =~= message_of(c)) by {
        assert(header_b64().len() == i);
        assert(b64::spec_encode(payload_of(c)).len() == j - i - 1);
        assert forall|k: int| 0 <= k < j implies s.subrange(0, j)[k] == message_of(c)[k] by {
            if k < i {
                assert(s.subrange(0, i)[k] == s[k]);
            } else if k == i {
                assert(s[k] == 46);
            } else {
                assert(s.subrange(i + 1, j)[k - i - 1] == s[k]);
            }
        }
    }
    assert(s =~= token_bytes_of(c, secret)) by {
        assert(message_of(c).len() == j);
        assert forall|k: int| 0 <= k < s.len() implies s[k] == token_bytes_of(c, secret)[k] by {
            if k < j {
                assert(s.subrange(0, j)[k] == s[k]);
            } else if k == j {
                assert(s[k] == 46);
            } else {
                assert(s.subrange(j + 1, s.len() as int)[k - j - 1] == s[k]);
            }
        }
        assert(s.len() == token_bytes_of(c, secret).len());
    }
    assert(t == decode_utf8(encode_utf8(t)));
    assert(t == token_of(c, secret));
}

} // verus!
