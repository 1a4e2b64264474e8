//! The claims payload: a fixed JSON shape, written and parsed byte by byte.
//!
//! The writer emits `{"sub":"…","iat":N,"exp":N}`, with `,"name":"…"` before
//! the closing brace when a display name is present.  Strings are UTF-8 with
//! `"` and `\` escaped and control bytes written as `\u00XX`; numbers are
//! plain decimal.  The parser accepts exactly the writer's outputs.

use vstd::prelude::*;
use crate::claims::{ClaimsView, TokenClaims};
use vstd::string::StrSliceExecFns;
use vstd::utf8::{decode_utf8, encode_utf8, valid_utf8};

verus! {

/// The opening bytes `{"sub":"`.
pub open spec fn key_sub() -> Seq<u8> {
    seq![123u8, 34, 115, 117, 98, 34, 58, 34]
}

/// The bytes `,"iat":`.
pub open spec fn key_iat() -> Seq<u8> {
    seq![44u8, 34, 105, 97, 116, 34, 58]
}

/// The bytes `,"exp":`.
pub open spec fn key_exp() -> Seq<u8> {
    seq![44u8, 34, 101, 120, 112, 34, 58]
}

/// The bytes `,"name":"`.
pub open spec fn key_name() -> Seq<u8> {
    seq![44u8, 34, 110, 97, 109, 101, 34, 58, 34]
}

/// A decimal digit byte.
pub open spec fn is_digit(b: u8) -> bool {
    48 <= b <= 57
}

/// A lowercase hexadecimal digit byte.
pub open spec fn is_lower_hex(b: u8) -> bool {
    (48 <= b <= 57) || (97 <= b <= 102)
}

/// The lowercase hexadecimal digit for a value below sixteen.
pub open spec fn hex_digit(v: u8) -> u8
    recommends
        v < 16,
{
    if v < 10 {
        (48 + v) as u8
    } else {
        (97 + (v - 10)) as u8
    }
}

/// The value of a lowercase hexadecimal digit byte.
pub open spec fn hex_value(b: u8) -> u8
    recommends
        is_lower_hex(b),
{
    if 48 <= b <= 57 {
        (b - 48) as u8
    } else {
        (10 + (b - 97)) as u8
    }
}

/// How one byte is written inside a JSON string: quotes and backslashes get
/// a two-byte escape, control bytes a `\u00XX` escape, all else stays as is.
pub open spec fn esc_byte(b: u8) -> Seq<u8> {
    if b == 34 {
        seq![92u8, 34]
    } else if b == 92 {
        seq![92u8, 92]
    } else if b < 32 {
        seq![92u8, 117, 48, 48, hex_digit((b / 16) as u8), hex_digit((b % 16) as u8)]
    } else {
        seq![b]
    }
}

/// A byte sequence written as JSON string content.
pub open spec fn esc(s: Seq<u8>) -> Seq<u8>
    decreases s.len(),
{
    if s.len() == 0 {
        seq![]
    } else {
        esc_byte(s[0]) + esc(s.drop_first())
    }
}

/// Parses JSON string content starting at `i`, up to and including the
/// closing quote.  Yields the unescaped bytes and the position after the
/// quote.  Only the writer's escapes are accepted.
pub open spec fn spec_strbody(s: Seq<u8>, i: int) -> Option<(Seq<u8>, int)>
    decreases s.len() - i when 0 <= i <= s.len()
{
    if i >= s.len() {
        None
    } else if s[i] == 34 {
        Some((seq![], i + 1))
    } else if s[i] == 92 {
        if i + 1 < s.len() && (s[i + 1] == 34 || s[i + 1] == 92) {
            match spec_strbody(s, i + 2) {
                Some((c, j)) => Some((seq![s[i + 1]] + c, j)),
                None => None,
            }
        } else if i + 5 < s.len() && s[i + 1] == 117 && s[i + 2] == 48 && s[i + 3] == 48
            && is_lower_hex(s[i + 4]) && is_lower_hex(s[i + 5]) && hex_value(s[i + 4]) * 16
            + hex_value(s[i + 5]) < 32 {
            match spec_strbody(s, i + 6) {
                Some((c, j)) => Some(
                    (seq![(hex_value(s[i + 4]) * 16 + hex_value(s[i + 5])) as u8] + c, j),
                ),
                None => None,
            }
        } else {
            None
        }
    } else if s[i] < 32 {
        None
    } else {
        match spec_strbody(s, i + 1) {
            Some((c, j)) => Some((seq![s[i]] + c, j)),
            None => None,
        }
    }
}

/// Escaped content followed by a closing quote parses back to the content.
pub proof fn lemma_strbody_complete(s: Seq<u8>, i: int, x: Seq<u8>)
    requires
        0 <= i,
        i + esc(x).len() + 1 <= s.len(),
        s.subrange(i, i + esc(x).len()) == esc(x),
        s[i + esc(x).len()] == 34,
    ensures
        spec_strbody(s, i) == Some((x, i + esc(x).len() + 1)),
    decreases x.len(),
{
    if x.len() == 0 {
        assert(esc(x).len() == 0);
        assert(s[i] == 34);
        assert(spec_strbody(s, i) == Some((Seq::<u8>::empty(), i + 1)));
        assert(Seq::<u8>::empty() =~= x);
    } else {
        let b = x[0];
        let rest = x.drop_first();
        let e0 = esc_byte(b);
        let l0 = e0.len() as int;
        assert(esc(x) == e0 + esc(rest));
        assert forall|k: int| 0 <= k < l0 implies s[i + k] == e0[k] by {
            assert(s.subrange(i, i + esc(x).len())[k] == s[i + k]);
            assert((e0 + esc(rest))[k] == e0[k]);
        }
        assert(s.subrange(i + l0, i + l0 + esc(rest).len()) =~= esc(rest)) by {
            assert forall|k: int| 0 <= k < esc(rest).len() implies s[i + l0 + k] == esc(rest)[k] by {
                assert(s.subrange(i, i + esc(x).len())[l0 + k] == s[i + l0 + k]);
                assert((e0 + esc(rest))[l0 + k] == esc(rest)[k]);
            }
        }
        assert(s[i + l0 + esc(rest).len()] == 34);
        lemma_strbody_complete(s, i + l0, rest);
        if b == 34 || b == 92 {
            assert(s[i] == 92 && s[i + 1] == b);
            assert(spec_strbody(s, i) == Some((seq![b] + rest, i + esc(x).len() + 1)));
        } else if b < 32 {
            let hi = (b / 16) as u8;
            let lo = (b % 16) as u8;
            assert(s[i] == 92 && s[i + 1] == 117 && s[i + 2] == 48 && s[i + 3] == 48);
            assert(s[i + 4] == hex_digit(hi) && s[i + 5] == hex_digit(lo));
            assert(is_lower_hex(hex_digit(hi)) && hex_value(hex_digit(hi)) == hi);
            assert(is_lower_hex(hex_digit(lo)) && hex_value(hex_digit(lo)) == lo);
            assert(hi * 16 + lo == b);
            assert(spec_strbody(s, i) == Some((seq![b] + rest, i + esc(x).len() + 1)));
        } else {
            assert(s[i + 0] == e0[0]);
            assert(s[i] == b);
            assert(spec_strbody(s, i) == Some((seq![b] + rest, i + esc(x).len() + 1)));
        }
        assert(seq![b] + rest =~= x);
    }
}

/// Where the run of decimal digits that starts at `i` ends.
pub open spec fn digits_end(s: Seq<u8>, i: int) -> int
    decreases s.len() - i when 0 <= i <= s.len()
{
    if i < s.len() && is_digit(s[i]) {
        digits_end(s, i + 1)
    } else {
        i
    }
}

/// The value of the digit bytes `s[i..j)`.
pub open spec fn num_value(s: Seq<u8>, i: int, j: int) -> int
    decreases j - i when i <= j
{
    if j <= i {
        0
    } else {
        num_value(s, i, j - 1) * 10 + (s[j - 1] - 48)
    }
}

/// Parses a decimal number starting at `i`: at least one digit, no leading
/// zero, value within `u64`.
pub open spec fn spec_parse_num(s: Seq<u8>, i: int) -> Option<(u64, int)> {
    let j = digits_end(s, i);
    if j == i {
        None
    } else if s[i] == 48 && j > i + 1 {
        None
    } else if num_value(s, i, j) > u64::MAX {
        None
    } else {
        Some((num_value(s, i, j) as u64, j))
    }
}

/// The decimal form of a number.
pub open spec fn dec(n: int) -> Seq<u8>
    recommends
        n >= 0,
    decreases n when n >= 0
{
    if n < 10 {
        seq![(48 + n) as u8]
    } else {
        dec(n / 10) + seq![(48 + n % 10) as u8]
    }
}

/// Shape of a decimal form: digits only, and a leading zero only for zero.
pub proof fn lemma_dec_shape(n: int)
    requires
        n >= 0,
    ensures
        dec(n).len() >= 1,
        forall|k: int| 0 <= k < dec(n).len() ==> is_digit(#[trigger] dec(n)[k]),
        dec(n)[0] == 48 ==> n == 0,
        n == 0 ==> dec(n).len() == 1,
    decreases n,
{
    if n >= 10 {
        lemma_dec_shape(n / 10);
        assert forall|k: int| 0 <= k < dec(n).len() implies is_digit(#[trigger] dec(n)[k]) by {
            if k < dec(n / 10).len() {
                assert(dec(n)[k] == dec(n / 10)[k]);
            } else {
                assert(dec(n)[k] == (48 + n % 10) as u8);
            }
        }
        assert(dec(n)[0] == dec(n / 10)[0]);
    }
}

/// The end of a digit run is where the digits stop.
pub proof fn lemma_digits_end(s: Seq<u8>, i: int, j: int)
    requires
        0 <= i <= j <= s.len(),
        forall|k: int| i <= k < j ==> is_digit(#[trigger] s[k]),
        j == s.len() || !is_digit(s[j]),
    ensures
        digits_end(s, i) == j,
    decreases j - i,
{
    if i < j {
        lemma_digits_end(s, i + 1, j);
    }
}

/// Reading the decimal form of `n` back gives `n`.
pub proof fn lemma_num_value_of_dec(s: Seq<u8>, i: int, n: int)
    requires
        n >= 0,
        0 <= i,
        i + dec(n).len() <= s.len(),
        s.subrange(i, i + dec(n).len()) == dec(n),
    ensures
        num_value(s, i, i + dec(n).len()) == n,
    decreases n,
{
    let l = dec(n).len() as int;
    assert forall|k: int| 0 <= k < l implies s[i + k] == dec(n)[k] by {
        assert(s.subrange(i, i + l)[k] == s[i + k]);
    }
    if n < 10 {
        assert(s[i + 0] == dec(n)[0]);
        assert(num_value(s, i, i + 1) == num_value(s, i, i) * 10 + (s[i] - 48));
    } else {
        let lp = dec(n / 10).len() as int;
        assert(dec(n) == dec(n / 10) + seq![(48 + n % 10) as u8]);
        assert(s.subrange(i, i + lp) =~= dec(n / 10)) by {
            assert forall|k: int| 0 <= k < lp implies s.subrange(i, i + lp)[k] == #[trigger] dec(
                n / 10,
            )[k] by {
                assert(s[i + k] == dec(n)[k]);
                assert(dec(n)[k] == dec(n / 10)[k]);
            }
        }
        lemma_num_value_of_dec(s, i, n / 10);
        assert(s[i + (l - 1)] == dec(n)[l - 1]);
        assert(s[i + l - 1] == dec(n)[l - 1]);
        assert(dec(n)[l - 1] == (48 + n % 10) as u8);
        assert(num_value(s, i, i + l) == num_value(s, i, i + l - 1) * 10 + (s[i + l - 1] - 48));
        assert((n / 10) * 10 + n % 10 == n);
    }
}

/// A decimal form in context parses back to its value.
pub proof fn lemma_num_complete(s: Seq<u8>, i: int, n: u64)
    requires
        0 <= i,
        i + dec(n as int).len() <= s.len(),
        s.subrange(i, i + dec(n as int).len()) == dec(n as int),
        i + dec(n as int).len() == s.len() || !is_digit(s[i + dec(n as int).len()]),
    ensures
        spec_parse_num(s, i) == Some((n, i + dec(n as int).len())),
{
    let l = dec(n as int).len() as int;
    lemma_dec_shape(n as int);
    assert forall|k: int| i <= k < i + l implies is_digit(#[trigger] s[k]) by {
        assert(s.subrange(i, i + l)[k - i] == s[k]);
    }
    lemma_digits_end(s, i, i + l);
    lemma_num_value_of_dec(s, i, n as int);
    assert(s[i] == dec(n as int)[0]) by {
        assert(s.subrange(i, i + l)[0] == s[i]);
    }
    if s[i] == 48 {
        assert(n == 0);
    }
}

/// The value of a digit run is never negative.
pub proof fn lemma_num_value_nonneg(s: Seq<u8>, i: int, j: int)
    requires
        0 <= i <= j <= s.len(),
        forall|m: int| i <= m < j ==> is_digit(#[trigger] s[m]),
    ensures
        num_value(s, i, j) >= 0,
    decreases j - i,
{
    if j > i {
        lemma_num_value_nonneg(s, i, j - 1);
    }
}

/// Growing a digit run never shrinks its value.
pub proof fn lemma_num_value_mono(s: Seq<u8>, i: int, j: int, k: int)
    requires
        0 <= i <= j <= k <= s.len(),
        forall|m: int| i <= m < k ==> is_digit(#[trigger] s[m]),
    ensures
        num_value(s, i, k) >= num_value(s, i, j),
    decreases k - j,
{
    if k > j {
        lemma_num_value_mono(s, i, j, k - 1);
        lemma_num_value_nonneg(s, i, k - 1);
        assert(num_value(s, i, k) == num_value(s, i, k - 1) * 10 + (s[k - 1] - 48));
    }
}

/// What a well-formed payload carries, before UTF-8 decoding.
pub ghost struct PayloadView {
    pub sub: Seq<u8>,
    pub iat: u64,
    pub exp: u64,
    pub name: Option<Seq<u8>>,
}

/// Parses a whole payload: the fixed key order the writer uses, nothing else.
pub open spec fn spec_parse_payload(s: Seq<u8>) -> Option<PayloadView> {
    if !(s.len() >= 8 && s.subrange(0, 8) == key_sub()) {
        None
    } else {
        match spec_strbody(s, 8) {
            None => None,
            Some((sub, i1)) => if !(i1 + 7 <= s.len() && s.subrange(i1, i1 + 7) == key_iat()) {
                None
            } else {
                match spec_parse_num(s, i1 + 7) {
                    None => None,
                    Some((iat, i2)) => if !(i2 + 7 <= s.len() && s.subrange(i2, i2 + 7)
                        == key_exp()) {
                        None
                    } else {
                        match spec_parse_num(s, i2 + 7) {
                            None => None,
                            Some((exp, i3)) => if i3 + 1 == s.len() && s[i3] == 125 {
                                Some(PayloadView { sub, iat, exp, name: None })
                            } else if i3 + 9 <= s.len() && s.subrange(i3, i3 + 9) == key_name() {
                                match spec_strbody(s, i3 + 9) {
                                    None => None,
                                    Some((name, i4)) => if i4 + 1 == s.len() && s[i4] == 125 {
                                        Some(PayloadView { sub, iat, exp, name: Some(name) })
                                    } else {
                                        None
                                    },
                                }
                            } else {
                                None
                            },
                        }
                    },
                }
            },
        }
    }
}

/// The payload the writer produces for one claims value.
pub open spec fn payload_of(c: ClaimsView) -> Seq<u8> {
    key_sub() + esc(encode_utf8(c.sub)) + seq![34u8] + key_iat() + dec(c.iat as int) + key_exp()
        + dec(c.exp as int) + (match c.name {
        Some(n) => key_name() + esc(encode_utf8(n)) + seq![34u8],
        None => seq![],
    }) + seq![125u8]
}

/// The parser accepts every payload the writer produces, and reads back the
/// same fields.
#[verifier::rlimit(100)]
pub proof fn lemma_payload_complete(c: ClaimsView)
    ensures
        spec_parse_payload(payload_of(c)) == Some(
            PayloadView {
                sub: encode_utf8(c.sub),
                iat: c.iat,
                exp: c.exp,
                name: match c.name {
                    Some(n) => Some(encode_utf8(n)),
                    None => None,
                },
            },
        ),
{
    let s = payload_of(c);
    let sb = esc(encode_utf8(c.sub));
    let i1 = 8 + sb.len() as int + 1;
    let i2 = i1 + 7 + dec(c.iat as int).len() as int;
    let i3 = i2 + 7 + dec(c.exp as int).len() as int;
    lemma_dec_shape(c.iat as int);
    lemma_dec_shape(c.exp as int);
    assert(s.subrange(0, 8) =~= key_sub());
    assert(s.subrange(8, 8 + sb.len() as int) =~= sb);
    assert(s[8 + sb.len() as int] == 34);
    lemma_strbody_complete(s, 8, encode_utf8(c.sub));
    assert(spec_strbody(s, 8) == Some((encode_utf8(c.sub), i1)));
    assert(s.subrange(i1, i1 + 7) =~= key_iat());
    assert(s.subrange(i1 + 7, i1 + 7 + dec(c.iat as int).len() as int) =~= dec(c.iat as int));
    assert(!is_digit(s[i1 + 7 + dec(c.iat as int).len() as int]));
    lemma_num_complete(s, i1 + 7, c.iat);
    assert(spec_parse_num(s, i1 + 7) == Some((c.iat, i2)));
    assert(s.subrange(i2, i2 + 7) =~= key_exp());
    assert(s.subrange(i2 + 7, i2 + 7 + dec(c.exp as int).len() as int) =~= dec(c.exp as int));
    assert(!is_digit(s[i2 + 7 + dec(c.exp as int).len() as int]));
    lemma_num_complete(s, i2 + 7, c.exp);
    assert(spec_parse_num(s, i2 + 7) == Some((c.exp, i3)));
    match c.name {
        None => {
            assert(s[i3] == 125);
            assert(i3 + 1 == s.len());
        },
        Some(n) => {
            let nb = esc(encode_utf8(n));
            assert(s[i3] != 125);
            assert(s.subrange(i3, i3 + 9) =~= key_name());
            assert(s.subrange(i3 + 9, i3 + 9 + nb.len() as int) =~= nb);
            assert(s[i3 + 9 + nb.len() as int] == 34);
            lemma_strbody_complete(s, i3 + 9, encode_utf8(n));
            let i4 = i3 + 9 + nb.len() as int + 1;
            assert(spec_strbody(s, i3 + 9) == Some((encode_utf8(n), i4)));
            assert(s[i4] == 125);
            assert(i4 + 1 == s.len());
        },
    }
}

/// Prefixing parsed string content with already-read bytes.
pub open spec fn prepend(pre: Seq<u8>, r: Option<(Seq<u8>, int)>) -> Option<(Seq<u8>, int)> {
    match r {
        Some((c, j)) => Some((pre + c, j)),
        None => None,
    }
}

proof fn lemma_prepend_assoc(a: Seq<u8>, b: Seq<u8>, r: Option<(Seq<u8>, int)>)
    ensures
        prepend(a, prepend(b, r)) == prepend(a + b, r),
{
    match r {
        Some((c, j)) => {
            assert(a + (b + c) =~= (a + b) + c);
        },
        None => {},
    }
}

/// Every byte before the end of a digit run is a digit.
pub proof fn lemma_digits_before_end(s: Seq<u8>, i: int)
    requires
        0 <= i <= s.len(),
    ensures
        i <= digits_end(s, i) <= s.len(),
        forall|m: int| i <= m < digits_end(s, i) ==> is_digit(#[trigger] s[m]),
    decreases s.len() - i,
{
    if i < s.len() && is_digit(s[i]) {
        lemma_digits_before_end(s, i + 1);
    }
}

/// The lowercase hexadecimal digit for a value below sixteen.
fn hex_byte(v: u8) -> (r: u8)
    requires
        v < 16,
    ensures
        r == hex_digit(v),
{
    if v < 10 {
        48 + v
    } else {
        97 + (v - 10)
    }
}

/// The value of a lowercase hexadecimal digit byte, or `None`.
fn hex_val(b: u8) -> (r: Option<u8>)
    ensures
        match r {
            Some(v) => is_lower_hex(b) && v == hex_value(b) && v < 16,
            None => !is_lower_hex(b),
        },
{
    if 48 <= b && b <= 57 {
        Some(b - 48)
    } else if 97 <= b && b <= 102 {
        Some(10 + (b - 97))
    } else {
        None
    }
}

/// Appends the escaped form of `bytes` to `out`.
fn write_escaped(bytes: &Vec<u8>, out: &mut Vec<u8>)
    ensures
        final(out)@ == old(out)@ + esc(bytes@),
{
    let mut i: usize = 0;
    proof {
        assert(bytes@.skip(0) =~= bytes@);
    }
    while i < bytes.len()
        invariant
            i <= bytes.len(),
            out@ + esc(bytes@.skip(i as int)) == old(out)@ + esc(bytes@),
        decreases bytes.len() - i,
    {
        let b = bytes[i];
        let ghost pre = out@;
        proof {
            assert(bytes@.skip(i as int)[0] == b);
            assert(bytes@.skip(i as int).drop_first() =~= bytes@.skip(i as int + 1));
            assert(esc(bytes@.skip(i as int)) == esc_byte(b) + esc(bytes@.skip(i as int + 1)));
        }
        if b == 34 {
            out.push(92);
            out.push(34);
        } else if b == 92 {
            out.push(92);
            out.push(92);
        } else if b < 32 {
            out.push(92);
            out.push(117);
            out.push(48);
            out.push(48);
            out.push(hex_byte(b / 16));
            out.push(hex_byte(b % 16));
        } else {
            out.push(b);
        }
        proof {
            assert(out@ =~= pre + esc_byte(b));
            assert(out@ + esc(bytes@.skip(i as int + 1)) =~= pre + esc(bytes@.skip(i as int)));
        }
        i = i + 1;
    }
    proof {
        assert(esc(bytes@.skip(i as int)) =~= Seq::<u8>::empty());
        assert(out@ + Seq::<u8>::empty() =~= out@);
    }
}

/// Appends the decimal form of `n` to `out`.
fn write_dec(n: u64, out: &mut Vec<u8>)
    ensures
        final(out)@ == old(out)@ + dec(n as int),
    decreases n,
{
    if n < 10 {
        out.push(48 + n as u8);
        proof {
            assert(out@ =~= old(out)@ + dec(n as int));
        }
    } else {
        write_dec(n / 10, out);
        out.push(48 + (n % 10) as u8);
        proof {
            assert(out@ =~= old(out)@ + dec(n as int));
        }
    }
}

/// Appends the bytes `{"sub":"` to `out`.
fn push_key_sub(out: &mut Vec<u8>)
    ensures
        final(out)@ == old(out)@ + key_sub(),
{
    out.push(123);
    out.push(34);
    out.push(115);
    out.push(117);
    out.push(98);
    out.push(34);
    out.push(58);
    out.push(34);
    proof {
        assert(out@ =~= old(out)@ + key_sub());
    }
}

/// Appends the bytes `,"iat":` to `out`.
fn push_key_iat(out: &mut Vec<u8>)
    ensures
        final(out)@ == old(out)@ + key_iat(),
{
    out.push(44);
    out.push(34);
    out.push(105);
    out.push(97);
    out.push(116);
    out.push(34);
    out.push(58);
    proof {
        assert(out@ =~= old(out)@ + key_iat());
    }
}

/// Appends the bytes `,"exp":` to `out`.
fn push_key_exp(out: &mut Vec<u8>)
    ensures
        final(out)@ == old(out)@ + key_exp(),
{
    out.push(44);
    out.push(34);
    out.push(101);
    out.push(120);
    out.push(112);
    out.push(34);
    out.push(58);
    proof {
        assert(out@ =~= old(out)@ + key_exp());
    }
}

/// Appends the bytes `,"name":"` to `out`.
fn push_key_name(out: &mut Vec<u8>)
    ensures
        final(out)@ == old(out)@ + key_name(),
{
    out.push(44);
    out.push(34);
    out.push(110);
    out.push(97);
    out.push(109);
    out.push(101);
    out.push(34);
    out.push(58);
    out.push(34);
    proof {
        assert(out@ =~= old(out)@ + key_name());
    }
}

/// Writes the payload for one claims value.
pub fn write_payload(c: &TokenClaims) -> (out: Vec<u8>)
    ensures
        out@ == payload_of(c@),
{
    let mut out: Vec<u8> = Vec::new();
    push_key_sub(&mut out);
    let sub_bytes = c.sub.as_str().as_bytes_vec();
    write_escaped(&sub_bytes, &mut out);
    out.push(34);
    push_key_iat(&mut out);
    write_dec(c.iat, &mut out);
    push_key_exp(&mut out);
    write_dec(c.exp, &mut out);
    match &c.name {
        Some(n) => {
            push_key_name(&mut out);
            let name_bytes = n.as_str().as_bytes_vec();
            write_escaped(&name_bytes, &mut out);
            out.push(34);
        },
        None => {},
    }
    out.push(125);
    proof {
        assert(out@ =~= payload_of(c@));
    }
    out
}

/// Compares `key` against the bytes of `v` that start at `at`.
fn match_at(v: &Vec<u8>, at: usize, key: &Vec<u8>) -> (r: bool)
    requires
        at <= v@.len(),
    ensures
        r == (at + key@.len() <= v@.len() && v@.subrange(
            at as int,
            at as int + key@.len() as int,
        ) == key@),
{
    let vlen: usize = v.len();
    if vlen - at < key.len() {
        return false;
    }
    let mut k: usize = 0;
    while k < key.len()
        invariant
            at + key@.len() <= v@.len(),
            v@.len() == vlen,
            k <= key@.len(),
            forall|m: int| 0 <= m < k ==> v@[at + m] == key@[m],
        decreases key@.len() - k,
    {
        proof {
            assert(at + k < v@.len());
        }
        if v[at + k] != key[k] {
            proof {
                assert(v@.subrange(at as int, at as int + key@.len() as int)[k as int] == v@[at
                    + k]);
            }
            return false;
        }
        k = k + 1;
    }
    proof {
        assert(v@.subrange(at as int, at as int + key@.len() as int) =~= key@);
    }
    true
}

/// The bytes `{"sub":"` as a vector.
fn key_sub_vec() -> (r: Vec<u8>)
    ensures
        r@ == key_sub(),
{
    let mut v: Vec<u8> = Vec::new();
    push_key_sub(&mut v);
    proof {
        assert(v@ =~= key_sub());
    }
    v
}

/// The bytes `,"iat":` as a vector.
fn key_iat_vec() -> (r: Vec<u8>)
    ensures
        r@ == key_iat(),
{
    let mut v: Vec<u8> = Vec::new();
    push_key_iat(&mut v);
    proof {
        assert(v@ =~= key_iat());
    }
    v
}

/// The bytes `,"exp":` as a vector.
fn key_exp_vec() -> (r: Vec<u8>)
    ensures
        r@ == key_exp(),
{
    let mut v: Vec<u8> = Vec::new();
    push_key_exp(&mut v);
    proof {
        assert(v@ =~= key_exp());
    }
    v
}

/// The bytes `,"name":"` as a vector.
fn key_name_vec() -> (r: Vec<u8>)
    ensures
        r@ == key_name(),
{
    let mut v: Vec<u8> = Vec::new();
    push_key_name(&mut v);
    proof {
        assert(v@ =~= key_name());
    }
    v
}

/// Reads JSON string content starting at `start`, through the closing quote.
fn scan_string(v: &Vec<u8>, start: usize) -> (r: Option<(Vec<u8>, usize)>)
    requires
        start <= v@.len(),
    ensures
        match r {
            Some(p) => spec_strbody(v@, start as int) == Some((p.0@, p.1 as int)) && start < p.1
                <= v@.len(),
            None => spec_strbody(v@, start as int) is None,
        },
{
    let mut i: usize = start;
    let mut acc: Vec<u8> = Vec::new();
    proof {
        assert(prepend(acc@, spec_strbody(v@, start as int)) == spec_strbody(v@, start as int))
            by {
            match spec_strbody(v@, start as int) {
                Some((c, j)) => {
                    assert(acc@ + c =~= c);
                },
                None => {},
            }
        }
    }
    while i < v.len()
        invariant
            start <= i <= v@.len(),
            spec_strbody(v@, start as int) == prepend(acc@, spec_strbody(v@, i as int)),
        decreases v@.len() - i,
    {
        let b = v[i];
        if b == 34 {
            proof {
                assert(spec_strbody(v@, i as int) == Some((Seq::<u8>::empty(), i as int + 1)));
                assert(acc@ + Seq::<u8>::empty() =~= acc@);
            }
            return Some((acc, i + 1));
        } else if b == 92 {
            if v.len() - i > 1 && (v[i + 1] == 34 || v[i + 1] == 92) {
                let ghost pre = acc@;
                acc.push(v[i + 1]);
                proof {
                    assert(spec_strbody(v@, i as int) == prepend(
                        seq![v@[i as int + 1]],
                        spec_strbody(v@, i as int + 2),
                    ));
                    lemma_prepend_assoc(pre, seq![v@[i as int + 1]], spec_strbody(v@, i as int + 2));
                    assert(pre + seq![v@[i as int + 1]] =~= acc@);
                }
                i = i + 2;
            } else if v.len() - i > 5 && v[i + 1] == 117 && v[i + 2] == 48 && v[i + 3] == 48 {
                let hi = match hex_val(v[i + 4]) {
                    Some(h) => h,
                    None => {
                        return None;
                    },
                };
                let lo = match hex_val(v[i + 5]) {
                    Some(l) => l,
                    None => {
                        return None;
                    },
                };
                let b2 = hi * 16 + lo;
                if b2 >= 32 {
                    return None;
                }
                let ghost pre = acc@;
                acc.push(b2);
                proof {
                    assert(spec_strbody(v@, i as int) == prepend(
                        seq![b2],
                        spec_strbody(v@, i as int + 6),
                    ));
                    lemma_prepend_assoc(pre, seq![b2], spec_strbody(v@, i as int + 6));
                    assert(pre + seq![b2] =~= acc@);
                }
                i = i + 6;
            } else {
                return None;
            }
        } else if b < 32 {
            return None;
        } else {
            let ghost pre = acc@;
            acc.push(b);
            proof {
                assert(spec_strbody(v@, i as int) == prepend(
                    seq![b],
                    spec_strbody(v@, i as int + 1),
                ));
                lemma_prepend_assoc(pre, seq![b], spec_strbody(v@, i as int + 1));
                assert(pre + seq![b] =~= acc@);
            }
            i = i + 1;
        }
    }
    None
}

/// Reads a decimal number starting at `start`.
fn scan_number(v: &Vec<u8>, start: usize) -> (r: Option<(u64, usize)>)
    requires
        start <= v@.len(),
    ensures
        match r {
            Some(p) => spec_parse_num(v@, start as int) == Some((p.0, p.1 as int)) && start < p.1
                <= v@.len(),
            None => spec_parse_num(v@, start as int) is None,
        },
{
    let mut i: usize = start;
    let mut n: u64 = 0;
    while i < v.len() && 48 <= v[i] && v[i] <= 57
        invariant
            start <= i <= v@.len(),
            digits_end(v@, start as int) == digits_end(v@, i as int),
            n == num_value(v@, start as int, i as int),
        decreases v@.len() - i,
    {
        let d = v[i] - 48;
        if n > (u64::MAX - d as u64) / 10 {
            proof {
                let de = digits_end(v@, start as int);
                lemma_digits_before_end(v@, i as int + 1);
                lemma_digits_before_end(v@, start as int);
                assert(is_digit(v@[i as int]));
                assert(digits_end(v@, i as int) == digits_end(v@, i as int + 1));
                assert(num_value(v@, start as int, i as int + 1) == n * 10 + d);
                assert(n * 10 + d > u64::MAX) by {
                    assert(n >= (u64::MAX - d as u64) / 10 + 1);
                    assert(((u64::MAX - d as u64) / 10 + 1) * 10 == ((u64::MAX - d as u64) / 10)
                        * 10 + 10);
                    assert(((u64::MAX - d as u64) / 10) * 10 + (u64::MAX - d as u64) % 10 == (
                    u64::MAX - d as u64));
                    assert(n * 10 >= (((u64::MAX - d as u64) / 10) + 1) * 10) by (nonlinear_arith)
                        requires
                            n >= (u64::MAX - d as u64) / 10 + 1,
                    ;
                }
                assert(i as int + 1 <= de);
                lemma_num_value_mono(v@, start as int, i as int + 1, de);
                assert(num_value(v@, start as int, de) > u64::MAX);
            }
            return None;
        }
        proof {
            assert(n * 10 + d <= u64::MAX) by {
                assert(n <= (u64::MAX - d as u64) / 10);
                assert(((u64::MAX - d as u64) / 10) * 10 + (u64::MAX - d as u64) % 10 == (u64::MAX
                    - d as u64));
                assert(n * 10 <= ((u64::MAX - d as u64) / 10) * 10) by (nonlinear_arith)
                    requires
                        n <= (u64::MAX - d as u64) / 10,
                ;
            }
            assert(num_value(v@, start as int, i as int + 1) == n * 10 + d);
        }
        n = n * 10 + d as u64;
        i = i + 1;
    }
    proof {
        assert(digits_end(v@, i as int) == i as int);
    }
    if i == start {
        return None;
    }
    if v[start] == 48 && i > start + 1 {
        return None;
    }
    Some((n, i))
}

/// What the parser hands back: the payload's fields, sub and name still as
/// raw UTF-8 bytes.
pub struct ParsedPayload {
    pub sub: Vec<u8>,
    pub iat: u64,
    pub exp: u64,
    pub name: Option<Vec<u8>>,
}

impl View for ParsedPayload {
    type V = PayloadView;

    open spec fn view(&self) -> PayloadView {
        PayloadView {
            sub: self.sub@,
            iat: self.iat,
            exp: self.exp,
            name: match self.name {
                Some(n) => Some(n@),
                None => None,
            },
        }
    }
}

/// Parses a whole payload; `None` on anything the writer could not have
/// produced.
pub fn parse_payload(v: &Vec<u8>) -> (r: Option<ParsedPayload>)
    ensures
        match r {
            Some(p) => spec_parse_payload(v@) == Some(p@),
            None => spec_parse_payload(v@) is None,
        },
{
    let vlen: usize = v.len();
    proof {
        assert(v@.len() == vlen);
    }
    let ks = key_sub_vec();
    if !match_at(v, 0, &ks) {
        return None;
    }
    let (sub, i1) = match scan_string(v, 8) {
        Some(p) => p,
        None => {
            return None;
        },
    };
    let ki = key_iat_vec();
    if !match_at(v, i1, &ki) {
        return None;
    }
    proof {
        assert(key_iat().len() == 7);
    }
    let (iat, i2) = match scan_number(v, i1 + 7) {
        Some(p) => p,
        None => {
            return None;
        },
    };
    let ke = key_exp_vec();
    if !match_at(v, i2, &ke) {
        return None;
    }
    proof {
        assert(key_exp().len() == 7);
    }
    let (exp, i3) = match scan_number(v, i2 + 7) {
        Some(p) => p,
        None => {
            return None;
        },
    };
    if i3 < v.len() && v.len() - i3 == 1 && v[i3] == 125 {
        return Some(ParsedPayload { sub, iat, exp, name: None });
    }
    let kn = key_name_vec();
    if !match_at(v, i3, &kn) {
        return None;
    }
    proof {
        assert(key_name().len() == 9);
    }
    let (name, i4) = match scan_string(v, i3 + 9) {
        Some(p) => p,
        None => {
            return None;
        },
    };
    if i4 < v.len() && v.len() - i4 == 1 && v[i4] == 125 {
        return Some(ParsedPayload { sub, iat, exp, name: Some(name) });
    }
    None
}


/// A lowercase hexadecimal digit is the digit of its own value.
proof fn lemma_hex_value_digit(b: u8)
    requires
        is_lower_hex(b),
    ensures
        hex_value(b) < 16,
        hex_digit(hex_value(b)) == b,
{
}

/// Only escaped content parses: the bytes a string body was read from are
/// the escaping of the content, closed by a quote.
pub proof fn lemma_strbody_sound(s: Seq<u8>, i: int, c: Seq<u8>, j: int)
    requires
        0 <= i <= s.len(),
        spec_strbody(s, i) == Some((c, j)),
    ensures
        i < j <= s.len(),
        s.subrange(i, j) == esc(c) + seq![34u8],
        esc(c).len() == j - i - 1,
    decreases s.len() - i,
{
    if s[i] == 34 {
        assert(c =~= Seq::<u8>::empty());
        assert(esc(c).len() == 0);
        assert(s.subrange(i, j) =~= esc(c) + seq![34u8]);
    } else if s[i] == 92 {
        if i + 1 < s.len() && (s[i + 1] == 34 || s[i + 1] == 92) {
            let rec = spec_strbody(s, i + 2)->Some_0;
            let c2 = rec.0;
            lemma_strbody_sound(s, i + 2, c2, j);
            assert(c == seq![s[i + 1]] + c2);
            assert(c[0] == s[i + 1]);
            assert(c.drop_first() =~= c2);
            assert(esc(c) == esc_byte(s[i + 1]) + esc(c2));
            assert(esc_byte(s[i + 1]) =~= seq![92u8, s[i + 1]]);
            assert(s.subrange(i, j) =~= esc(c) + seq![34u8]) by {
                assert forall|k: int| 0 <= k < j - i implies s.subrange(i, j)[k] == (esc(c)
                    + seq![34u8])[k] by {
                    if k >= 2 {
                        assert(s.subrange(i + 2, j)[k - 2] == (esc(c2) + seq![34u8])[k - 2]);
                    }
                }
            }
        } else {
            let hi = hex_value(s[i + 4]);
            let lo = hex_value(s[i + 5]);
            let w = (hi * 16 + lo) as u8;
            let rec = spec_strbody(s, i + 6)->Some_0;
            let c2 = rec.0;
            lemma_strbody_sound(s, i + 6, c2, j);
            lemma_hex_value_digit(s[i + 4]);
            lemma_hex_value_digit(s[i + 5]);
            assert(c == seq![w] + c2);
            assert(c[0] == w);
            assert(c.drop_first() =~= c2);
            assert(esc(c) == esc_byte(w) + esc(c2));
            assert(w / 16 == hi && w % 16 == lo);
            assert(esc_byte(w) =~= seq![92u8, 117, 48, 48, s[i + 4], s[i + 5]]);
            assert(s.subrange(i, j) =~= esc(c) + seq![34u8]) by {
                assert forall|k: int| 0 <= k < j - i implies s.subrange(i, j)[k] == (esc(c)
                    + seq![34u8])[k] by {
                    if k >= 6 {
                        assert(s.subrange(i + 6, j)[k - 6] == (esc(c2) + seq![34u8])[k - 6]);
                    }
                }
            }
        }
    } else {
        let rec = spec_strbody(s, i + 1)->Some_0;
        let c2 = rec.0;
        lemma_strbody_sound(s, i + 1, c2, j);
        assert(c == seq![s[i]] + c2);
        assert(c[0] == s[i]);
        assert(c.drop_first() =~= c2);
        assert(esc(c) == esc_byte(s[i]) + esc(c2));
        assert(esc_byte(s[i]) =~= seq![s[i]]);
        assert(s.subrange(i, j) =~= esc(c) + seq![34u8]) by {
            assert forall|k: int| 0 <= k < j - i implies s.subrange(i, j)[k] == (esc(c)
                + seq![34u8])[k] by {
                if k >= 1 {
                    assert(s.subrange(i + 1, j)[k - 1] == (esc(c2) + seq![34u8])[k - 1]);
                }
            }
        }
    }
}

/// A run of digits without a leading zero has a positive value.
proof fn lemma_num_value_pos(s: Seq<u8>, i: int, j: int)
    requires
        0 <= i < j <= s.len(),
        forall|m: int| i <= m < j ==> is_digit(#[trigger] s[m]),
        s[i] != 48,
    ensures
        num_value(s, i, j) >= 1,
    decreases j - i,
{
    if j == i + 1 {
        assert(is_digit(s[i]));
        assert(num_value(s, i, j) == s[i] - 48);
    } else {
        lemma_num_value_pos(s, i, j - 1);
        assert(is_digit(s[j - 1]));
        assert(num_value(s, i, j) == num_value(s, i, j - 1) * 10 + (s[j - 1] - 48));
    }
}

/// The decimal form of the value of a leading-zero-free digit run is that
/// run itself.
proof fn lemma_dec_of_digits(s: Seq<u8>, i: int, j: int)
    requires
        0 <= i < j <= s.len(),
        forall|m: int| i <= m < j ==> is_digit(#[trigger] s[m]),
        s[i] != 48 || j == i + 1,
    ensures
        num_value(s, i, j) >= 0,
        dec(num_value(s, i, j)) == s.subrange(i, j),
    decreases j - i,
{
    lemma_num_value_nonneg(s, i, j);
    if j == i + 1 {
        assert(is_digit(s[i]));
        assert(num_value(s, i, i) == 0);
        assert(num_value(s, i, j) == s[i] - 48);
        assert(0 <= num_value(s, i, j) < 10);
        assert(dec(num_value(s, i, j)) == seq![(48 + num_value(s, i, j)) as u8]);
        assert((48 + num_value(s, i, j)) as u8 == s[i]);
        assert(dec(num_value(s, i, j)) =~= seq![s[i]]);
        assert(s.subrange(i, j) =~= seq![s[i]]);
    } else {
        lemma_num_value_pos(s, i, j - 1);
        assert(is_digit(s[j - 1]));
        let d = s[j - 1] - 48;
        let n = num_value(s, i, j);
        assert(n == num_value(s, i, j - 1) * 10 + d);
        assert(n >= 10);
        assert(n / 10 == num_value(s, i, j - 1) && n % 10 == d) by {
            assert(num_value(s, i, j - 1) * 10 + d == n);
            assert(0 <= d < 10);
        }
        lemma_dec_of_digits(s, i, j - 1);
        assert(dec(n) == dec(n / 10) + seq![(48 + n % 10) as u8]);
        assert(dec(n) =~= s.subrange(i, j)) by {
            assert forall|k: int| 0 <= k < j - i implies dec(n)[k] == s.subrange(i, j)[k] by {
                if k < j - 1 - i {
                    assert(dec(n / 10)[k] == s.subrange(i, j - 1)[k]);
                }
            }
        }
    }
}

/// Only decimal forms parse: the bytes a number was read from are the
/// decimal form of its value.
pub proof fn lemma_num_sound(s: Seq<u8>, i: int, n: u64, j: int)
    requires
        0 <= i <= s.len(),
        spec_parse_num(s, i) == Some((n, j)),
    ensures
        i < j <= s.len(),
        s.subrange(i, j) == dec(n as int),
        dec(n as int).len() == j - i,
{
    lemma_digits_before_end(s, i);
    assert(j == digits_end(s, i));
    lemma_dec_of_digits(s, i, j);
}


/// Only writer outputs parse: a payload that parses, with UTF-8-valid
/// strings, is byte for byte what the writer produces for the claims it
/// yields.
#[verifier::rlimit(100)]
pub proof fn lemma_payload_sound(p: Seq<u8>, pv: PayloadView)
    requires
        spec_parse_payload(p) == Some(pv),
        valid_utf8(pv.sub),
        match pv.name {
            Some(nb) => valid_utf8(nb),
            None => true,
        },
    ensures
        p == payload_of(
            ClaimsView {
                sub: decode_utf8(pv.sub),
                iat: pv.iat,
                exp: pv.exp,
                name: match pv.name {
                    Some(nb) => Some(decode_utf8(nb)),
                    None => None,
                },
            },
        ),
{
    broadcast use vstd::utf8::decode_utf8_encode_utf8;

    let c = ClaimsView {
        sub: decode_utf8(pv.sub),
        iat: pv.iat,
        exp: pv.exp,
        name: match pv.name {
            Some(nb) => Some(decode_utf8(nb)),
            None => None,
        },
    };
    assert(encode_utf8(c.sub) == pv.sub);
    assert(p.subrange(0, 8) == key_sub());
    let r1 = spec_strbody(p, 8);
    let i1 = r1->Some_0.1;
    assert(r1 == Some((pv.sub, i1)));
    lemma_strbody_sound(p, 8, pv.sub, i1);
    assert(p.subrange(i1, i1 + 7) == key_iat());
    let r2 = spec_parse_num(p, i1 + 7);
    let i2 = r2->Some_0.1;
    assert(r2 == Some((pv.iat, i2)));
    lemma_num_sound(p, i1 + 7, pv.iat, i2);
    assert(p.subrange(i2, i2 + 7) == key_exp());
    let r3 = spec_parse_num(p, i2 + 7);
    let i3 = r3->Some_0.1;
    assert(r3 == Some((pv.exp, i3)));
    lemma_num_sound(p, i2 + 7, pv.exp, i3);
    let e = esc(pv.sub);
    assert(key_sub().len() == 8 && key_iat().len() == 7 && key_exp().len() == 7 && key_name().len()
        == 9);
    match pv.name {
        None => {
            assert(i3 + 1 == p.len() && p[i3] == 125);
            assert(payload_of(c).len() == p.len());
            assert forall|k: int| 0 <= k < p.len() implies p[k] == payload_of(c)[k] by {
                if k < 8 {
                    assert(p.subrange(0, 8)[k] == p[k]);
                } else if k < i1 {
                    assert(p.subrange(8, i1)[k - 8] == p[k]);
                    assert((e + seq![34u8])[k - 8] == p[k]);
                } else if k < i1 + 7 {
                    assert(p.subrange(i1, i1 + 7)[k - i1] == p[k]);
                } else if k < i2 {
                    assert(p.subrange(i1 + 7, i2)[k - i1 - 7] == p[k]);
                } else if k < i2 + 7 {
                    assert(p.subrange(i2, i2 + 7)[k - i2] == p[k]);
                } else if k < i3 {
                    assert(p.subrange(i2 + 7, i3)[k - i2 - 7] == p[k]);
                } else {
                    assert(p[k] == 125);
                }
            }
            assert(p =~= payload_of(c));
        },
        Some(nb) => {
            assert(!(i3 + 1 == p.len() && p[i3] == 125));
            assert(p.subrange(i3, i3 + 9) == key_name());
            let r4 = spec_strbody(p, i3 + 9);
            let i4 = r4->Some_0.1;
            assert(r4 == Some((nb, i4)));
            lemma_strbody_sound(p, i3 + 9, nb, i4);
            assert(encode_utf8(decode_utf8(nb)) == nb);
            let en = esc(nb);
            assert(i4 + 1 == p.len() && p[i4] == 125);
            assert(payload_of(c).len() == p.len());
            assert forall|k: int| 0 <= k < p.len() implies p[k] == payload_of(c)[k] by {
                if k < 8 {
                    assert(p.subrange(0, 8)[k] == p[k]);
                } else if k < i1 {
                    assert(p.subrange(8, i1)[k - 8] == p[k]);
                    assert((e + seq![34u8])[k - 8] == p[k]);
                } else if k < i1 + 7 {
                    assert(p.subrange(i1, i1 + 7)[k - i1] == p[k]);
                } else if k < i2 {
                    assert(p.subrange(i1 + 7, i2)[k - i1 - 7] == p[k]);
                } else if k < i2 + 7 {
                    assert(p.subrange(i2, i2 + 7)[k - i2] == p[k]);
                } else if k < i3 {
                    assert(p.subrange(i2 + 7, i3)[k - i2 - 7] == p[k]);
                } else if k < i3 + 9 {
                    assert(p.subrange(i3, i3 + 9)[k - i3] == p[k]);
                } else if k < i4 {
                    assert(p.subrange(i3 + 9, i4)[k - i3 - 9] == p[k]);
                    assert((en + seq![34u8])[k - i3 - 9] == p[k]);
                } else {
                    assert(p[k] == 125);
                }
            }
            assert(p =~= payload_of(c));
        },
    }
}

} // verus!
