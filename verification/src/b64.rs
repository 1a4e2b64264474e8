//! Base64url without padding, over bytes.
//!
//! Three input bytes become four alphabet bytes; a one- or two-byte tail
//! becomes two or three.  Decoding is strict: only alphabet bytes, and the
//! unused low bits of the last digit must be zero, so exactly the encoder's
//! outputs are accepted.

use vstd::prelude::*;

verus! {

/// Bytes of the base64url alphabet: `A`-`Z`, `a`-`z`, `0`-`9`, `-`, `_`.
pub open spec fn is_b64url_byte(b: u8) -> bool {
    (65 <= b <= 90) || (97 <= b <= 122) || (48 <= b <= 57) || b == 45 || b == 95
}

/// The alphabet byte that stands for a six-bit value.
pub open spec fn spec_digit(v: u8) -> u8
    recommends
        v < 64,
{
    if v < 26 {
        (65 + v) as u8
    } else if v < 52 {
        (97 + (v - 26)) as u8
    } else if v < 62 {
        (48 + (v - 52)) as u8
    } else if v == 62 {
        45
    } else {
        95
    }
}

/// The six-bit value an alphabet byte stands for.
pub open spec fn spec_value(b: u8) -> u8
    recommends
        is_b64url_byte(b),
{
    if 65 <= b <= 90 {
        (b - 65) as u8
    } else if 97 <= b <= 122 {
        (26 + (b - 97)) as u8
    } else if 48 <= b <= 57 {
        (52 + (b - 48)) as u8
    } else if b == 45 {
        62
    } else {
        63
    }
}

/// The base64url encoding of a byte sequence.
pub open spec fn spec_encode(s: Seq<u8>) -> Seq<u8>
    decreases s.len(),
{
    if s.len() == 0 {
        seq![]
    } else if s.len() == 1 {
        seq![spec_digit((s[0] / 4) as u8), spec_digit(((s[0] % 4) * 16) as u8)]
    } else if s.len() == 2 {
        seq![
            spec_digit((s[0] / 4) as u8),
            spec_digit(((s[0] % 4) * 16 + s[1] / 16) as u8),
            spec_digit(((s[1] % 16) * 4) as u8),
        ]
    } else {
        seq![
            spec_digit((s[0] / 4) as u8),
            spec_digit(((s[0] % 4) * 16 + s[1] / 16) as u8),
            spec_digit(((s[1] % 16) * 4 + s[2] / 64) as u8),
            spec_digit((s[2] % 64) as u8),
        ] + spec_encode(s.skip(3))
    }
}

/// Strict base64url decoding: `None` unless the input is exactly the
/// encoding of some byte sequence, which is then returned.
pub open spec fn spec_decode(s: Seq<u8>) -> Option<Seq<u8>>
    decreases s.len(),
{
    if s.len() == 0 {
        Some(seq![])
    } else if s.len() == 1 {
        None
    } else if s.len() == 2 {
        if is_b64url_byte(s[0]) && is_b64url_byte(s[1]) && spec_value(s[1]) % 16 == 0 {
            Some(seq![(spec_value(s[0]) * 4 + spec_value(s[1]) / 16) as u8])
        } else {
            None
        }
    } else if s.len() == 3 {
        if is_b64url_byte(s[0]) && is_b64url_byte(s[1]) && is_b64url_byte(s[2]) && spec_value(
            s[2],
        ) % 4 == 0 {
            Some(
                seq![
                    (spec_value(s[0]) * 4 + spec_value(s[1]) / 16) as u8,
                    ((spec_value(s[1]) % 16) * 16 + spec_value(s[2]) / 4) as u8,
                ],
            )
        } else {
            None
        }
    } else {
        if is_b64url_byte(s[0]) && is_b64url_byte(s[1]) && is_b64url_byte(s[2]) && is_b64url_byte(
            s[3],
        ) {
            match spec_decode(s.skip(4)) {
                Some(rest) => Some(
                    seq![
                        (spec_value(s[0]) * 4 + spec_value(s[1]) / 16) as u8,
                        ((spec_value(s[1]) % 16) * 16 + spec_value(s[2]) / 4) as u8,
                        ((spec_value(s[2]) % 4) * 64 + spec_value(s[3])) as u8,
                    ] + rest,
                ),
                None => None,
            }
        } else {
            None
        }
    }
}

/// The two digit maps invert each other on six-bit values.
proof fn lemma_digit_value(v: u8)
    requires
        v < 64,
    ensures
        is_b64url_byte(spec_digit(v)),
        spec_value(spec_digit(v)) == v,
{
}

/// Every byte the encoder emits lies in the alphabet.
pub proof fn lemma_encode_alphabet(s: Seq<u8>)
    ensures
        forall|i: int| 0 <= i < spec_encode(s).len() ==> is_b64url_byte(#[trigger] spec_encode(s)[i]),
    decreases s.len(),
{
    if s.len() == 0 {
    } else if s.len() == 1 {
        lemma_digit_value((s[0] / 4) as u8);
        lemma_digit_value(((s[0] % 4) * 16) as u8);
    } else if s.len() == 2 {
        lemma_digit_value((s[0] / 4) as u8);
        lemma_digit_value(((s[0] % 4) * 16 + s[1] / 16) as u8);
        lemma_digit_value(((s[1] % 16) * 4) as u8);
    } else {
        lemma_digit_value((s[0] / 4) as u8);
        lemma_digit_value(((s[0] % 4) * 16 + s[1] / 16) as u8);
        lemma_digit_value(((s[1] % 16) * 4 + s[2] / 64) as u8);
        lemma_digit_value((s[2] % 64) as u8);
        lemma_encode_alphabet(s.skip(3));
        assert forall|i: int| 0 <= i < spec_encode(s).len() implies is_b64url_byte(
            #[trigger] spec_encode(s)[i],
        ) by {
            if i >= 4 {
                assert(spec_encode(s)[i] == spec_encode(s.skip(3))[i - 4]);
            }
        }
    }
}

/// Decoding inverts encoding: the codec loses nothing.
pub proof fn lemma_decode_encode(s: Seq<u8>)
    ensures
        spec_decode(spec_encode(s)) == Some(s),
    decreases s.len(),
{
    let e = spec_encode(s);
    if s.len() == 0 {
        assert(spec_decode(e) == Some(s));
    } else if s.len() == 1 {
        lemma_digit_value((s[0] / 4) as u8);
        lemma_digit_value(((s[0] % 4) * 16) as u8);
        assert(spec_decode(e) == Some(seq![s[0]])) by {
            assert((s[0] / 4) * 4 + ((s[0] % 4) * 16) / 16 == s[0]);
        }
        assert(seq![s[0]] =~= s);
    } else if s.len() == 2 {
        lemma_digit_value((s[0] / 4) as u8);
        lemma_digit_value(((s[0] % 4) * 16 + s[1] / 16) as u8);
        lemma_digit_value(((s[1] % 16) * 4) as u8);
        assert(spec_decode(e) == Some(seq![s[0], s[1]])) by {
            assert((s[0] / 4) * 4 + ((s[0] % 4) * 16 + s[1] / 16) / 16 == s[0]);
            assert((((s[0] % 4) * 16 + s[1] / 16) % 16) * 16 + ((s[1] % 16) * 4) / 4 == s[1]);
        }
        assert(seq![s[0], s[1]] =~= s);
    } else {
        lemma_digit_value((s[0] / 4) as u8);
        lemma_digit_value(((s[0] % 4) * 16 + s[1] / 16) as u8);
        lemma_digit_value(((s[1] % 16) * 4 + s[2] / 64) as u8);
        lemma_digit_value((s[2] % 64) as u8);
        lemma_decode_encode(s.skip(3));
        assert(e.skip(4) =~= spec_encode(s.skip(3)));
        assert(e.len() >= 4) by {
            if s.skip(3).len() == 0 {
            }
        }
        assert((s[0] / 4) * 4 + ((s[0] % 4) * 16 + s[1] / 16) / 16 == s[0]);
        assert((((s[0] % 4) * 16 + s[1] / 16) % 16) * 16 + (((s[1] % 16) * 4 + s[2] / 64)) / 4
            == s[1]);
        assert(((((s[1] % 16) * 4 + s[2] / 64)) % 4) * 64 + (s[2] % 64) == s[2]);
        assert(seq![s[0], s[1], s[2]] + s.skip(3) =~= s);
    }
}

/// The alphabet byte for a six-bit value.
fn digit(v: u8) -> (r: u8)
    requires
        v < 64,
    ensures
        r == spec_digit(v),
{
    if v < 26 {
        65 + v
    } else if v < 52 {
        97 + (v - 26)
    } else if v < 62 {
        48 + (v - 52)
    } else if v == 62 {
        45
    } else {
        95
    }
}

/// The six-bit value of an alphabet byte, or `None` outside the alphabet.
fn value_of(b: u8) -> (r: Option<u8>)
    ensures
        match r {
            Some(v) => is_b64url_byte(b) && v == spec_value(b) && v < 64,
            None => !is_b64url_byte(b),
        },
{
    if 65 <= b && b <= 90 {
        Some(b - 65)
    } else if 97 <= b && b <= 122 {
        Some(26 + (b - 97))
    } else if 48 <= b && b <= 57 {
        Some(52 + (b - 48))
    } else if b == 45 {
        Some(62)
    } else if b == 95 {
        Some(63)
    } else {
        None
    }
}

/// Base64url-encodes a byte sequence.
pub fn encode(s: &Vec<u8>) -> (r: Vec<u8>)
    ensures
        r@ == spec_encode(s@),
{
    let mut out: Vec<u8> = Vec::new();
    let mut i: usize = 0;
    proof {
        assert(s@.skip(0) =~= s@);
        assert(out@ + spec_encode(s@) =~= spec_encode(s@));
    }
    while s.len() - i >= 3
        invariant
            i <= s.len(),
            out@ + spec_encode(s@.skip(i as int)) == spec_encode(s@),
        decreases s.len() - i,
    {
        let a = s[i];
        let b = s[i + 1];
        let c = s[i + 2];
        proof {
            assert(s@.skip(i as int).len() >= 3);
            assert(s@.skip(i as int)[0] == a);
            assert(s@.skip(i as int)[1] == b);
            assert(s@.skip(i as int)[2] == c);
            assert(s@.skip(i as int).skip(3) =~= s@.skip(i as int + 3));
        }
        out.push(digit(a / 4));
        out.push(digit((a % 4) * 16 + b / 16));
        out.push(digit((b % 16) * 4 + c / 64));
        out.push(digit(c % 64));
        proof {
            assert(out@ + spec_encode(s@.skip(i as int + 3)) =~= spec_encode(s@));
        }
        i = i + 3;
    }
    let rem = s.len() - i;
    if rem == 1 {
        let a = s[i];
        proof {
            assert(s@.skip(i as int)[0] == a);
        }
        out.push(digit(a / 4));
        out.push(digit((a % 4) * 16));
    } else if rem == 2 {
        let a = s[i];
        let b = s[i + 1];
        proof {
            assert(s@.skip(i as int)[0] == a);
            assert(s@.skip(i as int)[1] == b);
        }
        out.push(digit(a / 4));
        out.push(digit((a % 4) * 16 + b / 16));
        out.push(digit((b % 16) * 4));
    }
    proof {
        assert(out@ =~= spec_encode(s@));
    }
    out
}

/// Base64url-decodes a byte sequence; `None` on anything the encoder could
/// not have produced.
pub fn decode(s: &Vec<u8>) -> (r: Option<Vec<u8>>)
    ensures
        match r {
            Some(v) => spec_decode(s@) == Some(v@),
            None => spec_decode(s@) is None,
        },
{
    let mut out: Vec<u8> = Vec::new();
    let mut i: usize = 0;
    proof {
        assert(s@.skip(0) =~= s@);
        assert(forall|rest: Seq<u8>| out@ + rest =~= rest);
    }
    while s.len() - i >= 4
        invariant
            i <= s.len(),
            spec_decode(s@) == match spec_decode(s@.skip(i as int)) {
                Some(rest) => Some(out@ + rest),
                None => None::<Seq<u8>>,
            },
        decreases s.len() - i,
    {
        proof {
            assert(s@.skip(i as int)[0] == s@[i as int]);
            assert(s@.skip(i as int)[1] == s@[i as int + 1]);
            assert(s@.skip(i as int)[2] == s@[i as int + 2]);
            assert(s@.skip(i as int)[3] == s@[i as int + 3]);
            assert(s@.skip(i as int).skip(4) =~= s@.skip(i as int + 4));
        }
        let v0 = match value_of(s[i]) {
            Some(v) => v,
            None => {
                return None;
            },
        };
        let v1 = match value_of(s[i + 1]) {
            Some(v) => v,
            None => {
                return None;
            },
        };
        let v2 = match value_of(s[i + 2]) {
            Some(v) => v,
            None => {
                return None;
            },
        };
        let v3 = match value_of(s[i + 3]) {
            Some(v) => v,
            None => {
                return None;
            },
        };
        out.push(v0 * 4 + v1 / 16);
        out.push((v1 % 16) * 16 + v2 / 4);
        out.push((v2 % 4) * 64 + v3);
        proof {
            assert(spec_decode(s@) == match spec_decode(s@.skip(i as int + 4)) {
                Some(rest) => Some(out@ + rest),
                None => None::<Seq<u8>>,
            });
        }
        i = i + 4;
    }
    let rem = s.len() - i;
    if rem == 0 {
        proof {
            assert(out@ + Seq::<u8>::empty() =~= out@);
        }
        Some(out)
    } else if rem == 2 {
        proof {
            assert(s@.skip(i as int)[0] == s@[i as int]);
            assert(s@.skip(i as int)[1] == s@[i as int + 1]);
        }
        let v0 = match value_of(s[i]) {
            Some(v) => v,
            None => {
                return None;
            },
        };
        let v1 = match value_of(s[i + 1]) {
            Some(v) => v,
            None => {
                return None;
            },
        };
        if v1 % 16 != 0 {
            return None;
        }
        out.push(v0 * 4 + v1 / 16);
        proof {
            assert(spec_decode(s@.skip(i as int)) == Some(
                seq![(spec_value(s@[i as int]) * 4 + spec_value(s@[i as int + 1]) / 16) as u8],
            ));
            assert(out@ =~= out@.drop_last() + seq![out@.last()]);
        }
        Some(out)
    } else if rem == 3 {
        proof {
            assert(s@.skip(i as int)[0] == s@[i as int]);
            assert(s@.skip(i as int)[1] == s@[i as int + 1]);
            assert(s@.skip(i as int)[2] == s@[i as int + 2]);
        }
        let v0 = match value_of(s[i]) {
            Some(v) => v,
            None => {
                return None;
            },
        };
        let v1 = match value_of(s[i + 1]) {
            Some(v) => v,
            None => {
                return None;
            },
        };
        let v2 = match value_of(s[i + 2]) {
            Some(v) => v,
            None => {
                return None;
            },
        };
        if v2 % 4 != 0 {
            return None;
        }
        let ghost old_out = out@;
        out.push(v0 * 4 + v1 / 16);
        out.push((v1 % 16) * 16 + v2 / 4);
        proof {
            assert(out@ =~= old_out + seq![
                (spec_value(s@[i as int]) * 4 + spec_value(s@[i as int + 1]) / 16) as u8,
                ((spec_value(s@[i as int + 1]) % 16) * 16 + spec_value(s@[i as int + 2]) / 4) as u8,
            ]);
        }
        Some(out)
    } else {
        // one trailing digit can encode nothing
        None
    }
}


/// The digit of a value of an alphabet byte is that byte again.
proof fn lemma_value_digit(b: u8)
    requires
        is_b64url_byte(b),
    ensures
        spec_value(b) < 64,
        spec_digit(spec_value(b)) == b,
{
}

/// Strict decoding accepts nothing but encoder outputs: whatever decodes to
/// `p` is the encoding of `p`.
pub proof fn lemma_encode_decode(e: Seq<u8>, p: Seq<u8>)
    requires
        spec_decode(e) == Some(p),
    ensures
        e == spec_encode(p),
    decreases e.len(),
{
    if e.len() == 0 {
        assert(p =~= Seq::<u8>::empty());
        assert(e =~= spec_encode(p));
    } else if e.len() == 2 {
        let v0 = spec_value(e[0]);
        let v1 = spec_value(e[1]);
        lemma_value_digit(e[0]);
        lemma_value_digit(e[1]);
        let b0 = (v0 * 4 + v1 / 16) as u8;
        assert(p =~= seq![b0]);
        assert(b0 / 4 == v0);
        assert((b0 % 4) * 16 == v1);
        assert(e =~= spec_encode(p));
    } else if e.len() == 3 {
        let v0 = spec_value(e[0]);
        let v1 = spec_value(e[1]);
        let v2 = spec_value(e[2]);
        lemma_value_digit(e[0]);
        lemma_value_digit(e[1]);
        lemma_value_digit(e[2]);
        let b0 = (v0 * 4 + v1 / 16) as u8;
        let b1 = ((v1 % 16) * 16 + v2 / 4) as u8;
        assert(p =~= seq![b0, b1]);
        assert(b0 / 4 == v0);
        assert((b0 % 4) * 16 + b1 / 16 == v1);
        assert((b1 % 16) * 4 == v2);
        assert(e =~= spec_encode(p));
    } else {
        let v0 = spec_value(e[0]);
        let v1 = spec_value(e[1]);
        let v2 = spec_value(e[2]);
        let v3 = spec_value(e[3]);
        lemma_value_digit(e[0]);
        lemma_value_digit(e[1]);
        lemma_value_digit(e[2]);
        lemma_value_digit(e[3]);
        let b0 = (v0 * 4 + v1 / 16) as u8;
        let b1 = ((v1 % 16) * 16 + v2 / 4) as u8;
        let b2 = ((v2 % 4) * 64 + v3) as u8;
        let rest = spec_decode(e.skip(4))->Some_0;
        assert(p == seq![b0, b1, b2] + rest);
        assert(rest =~= p.skip(3));
        lemma_encode_decode(e.skip(4), p.skip(3));
        assert(p.len() >= 3);
        assert(p[0] == b0 && p[1] == b1 && p[2] == b2);
        assert(b0 / 4 == v0);
        assert((b0 % 4) * 16 + b1 / 16 == v1);
        assert((b1 % 16) * 4 + b2 / 64 == v2);
        assert(b2 % 64 == v3);
        assert(spec_encode(p) == seq![
            spec_digit((p[0] / 4) as u8),
            spec_digit(((p[0] % 4) * 16 + p[1] / 16) as u8),
            spec_digit(((p[1] % 16) * 4 + p[2] / 64) as u8),
            spec_digit((p[2] % 64) as u8),
        ] + spec_encode(p.skip(3)));
        assert(e =~= spec_encode(p));
    }
}

} // verus!
