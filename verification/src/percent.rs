//! Percent-encoding and -decoding of byte strings, restricted to the RFC 3986
//! unreserved alphabet as OAuth 1.0a requires: every byte outside
//! `ALPHA / DIGIT / "-" / "." / "_" / "~"` becomes `%XY` with uppercase hex.

use vstd::prelude::*;

verus! {

/// A byte that is left as itself by the encoding.
pub open spec fn is_unreserved(b: u8) -> bool {
    (0x41 <= b && b <= 0x5a) || (0x61 <= b && b <= 0x7a) || (0x30 <= b && b <= 0x39)
        || b == 0x2d || b == 0x2e || b == 0x5f || b == 0x7e
}

/// The uppercase hex digit for a nibble.
pub open spec fn hex_digit(n: u8) -> u8 {
    if n < 10 {
        (0x30 + n) as u8
    } else {
        (0x41 + (n - 10)) as u8
    }
}

/// How a single byte serializes: itself, or a three-byte escape.
pub open spec fn encoded_byte(b: u8) -> Seq<u8> {
    if is_unreserved(b) {
        seq![b]
    } else {
        seq![0x25, hex_digit(b / 16), hex_digit(b % 16)]
    }
}

/// The percent-encoding of a whole byte string.
pub open spec fn percent_encoding(s: Seq<u8>) -> Seq<u8>
    decreases s.len(),
{
    if s.len() == 0 {
        Seq::empty()
    } else {
        encoded_byte(s[0]) + percent_encoding(s.skip(1))
    }
}

/// A byte admissible for the digits of an escape.
pub open spec fn is_hex_byte(b: u8) -> bool {
    (0x30 <= b && b <= 0x39) || (0x41 <= b && b <= 0x46) || (0x61 <= b && b <= 0x66)
}

/// The nibble a hex digit denotes.
pub open spec fn hex_val(b: u8) -> u8 {
    if 0x30 <= b && b <= 0x39 {
        (b - 0x30) as u8
    } else if 0x41 <= b && b <= 0x46 {
        (b - 0x41 + 10) as u8
    } else {
        (b - 0x61 + 10) as u8
    }
}

/// Whether every `%` in the string starts a full two-hex-digit escape.
pub open spec fn valid_encoded(s: Seq<u8>) -> bool
    decreases s.len(),
{
    if s.len() == 0 {
        true
    } else if s[0] == 0x25 {
        s.len() >= 3 && is_hex_byte(s[1]) && is_hex_byte(s[2]) && valid_encoded(s.skip(3))
    } else {
        valid_encoded(s.skip(1))
    }
}

/// The percent-decoding of a byte string; meaningful where `valid_encoded` holds.
pub open spec fn percent_decoding(s: Seq<u8>) -> Seq<u8>
    decreases s.len(),
{
    if s.len() == 0 {
        Seq::empty()
    } else if s[0] == 0x25 && s.len() >= 3 {
        seq![((hex_val(s[1]) * 16 + hex_val(s[2])) as u8)] + percent_decoding(s.skip(3))
    } else {
        seq![s[0]] + percent_decoding(s.skip(1))
    }
}

/// Every byte of an encoded string is unreserved or the escape marker `%`.
pub open spec fn encoded_charset_ok(v: Seq<u8>) -> bool {
    forall|i: int| 0 <= i < v.len() ==> is_unreserved(#[trigger] v[i]) || v[i] == 0x25
}

/// Encoded output never leaves the unreserved-or-`%` alphabet.
pub proof fn lemma_percent_encoding_charset(s: Seq<u8>)
    ensures
        encoded_charset_ok(percent_encoding(s)),
    decreases s.len(),
{
    if s.len() == 0 {
    } else {
        lemma_percent_encoding_charset(s.skip(1));
        assert forall|i: int| 0 <= i < percent_encoding(s).len()
            implies is_unreserved(#[trigger] percent_encoding(s)[i]) || percent_encoding(s)[i] == 0x25
        by {
            let e = encoded_byte(s[0]);
            if i < e.len() {
                assert(percent_encoding(s)[i] == e[i]);
            } else {
                assert(percent_encoding(s)[i] == percent_encoding(s.skip(1))[i - e.len()]);
            }
        }
    }
}

/// Decoding inverts encoding exactly.
pub proof fn lemma_percent_round_trip(s: Seq<u8>)
    ensures
        percent_decoding(percent_encoding(s)) == s,
        valid_encoded(percent_encoding(s)),
    decreases s.len(),
{
    if s.len() == 0 {
        assert(percent_decoding(percent_encoding(s)) =~= s);
    } else {
        lemma_percent_round_trip(s.skip(1));
        let b = s[0];
        let e = encoded_byte(b);
        let tail = percent_encoding(s.skip(1));
        assert(percent_encoding(s) == e + tail);
        if is_unreserved(b) {
            assert((e + tail).skip(1) =~= tail);
            assert(percent_decoding(percent_encoding(s)) =~= s);
        } else {
            let w = e + tail;
            assert(w[0] == 0x25 && w[1] == hex_digit(b / 16) && w[2] == hex_digit(b % 16));
            assert(is_hex_byte(hex_digit(b / 16)) && is_hex_byte(hex_digit(b % 16)));
            assert(hex_val(hex_digit(b / 16)) == b / 16);
            assert(hex_val(hex_digit(b % 16)) == b % 16);
            assert((b / 16) * 16 + b % 16 == b);
            assert(w.skip(3) =~= tail);
            assert(percent_decoding(percent_encoding(s)) =~= s);
        }
    }
}

/// Encoding is injective: distinct inputs stay distinct.
pub proof fn lemma_percent_encoding_injective(a: Seq<u8>, b: Seq<u8>)
    requires
        percent_encoding(a) == percent_encoding(b),
    ensures
        a == b,
{
    lemma_percent_round_trip(a);
    lemma_percent_round_trip(b);
}

/// Exec mirror of `is_unreserved`.
pub fn unreserved(b: u8) -> (r: bool)
    ensures
        r == is_unreserved(b),
{
    (0x41 <= b && b <= 0x5a) || (0x61 <= b && b <= 0x7a) || (0x30 <= b && b <= 0x39)
        || b == 0x2d || b == 0x2e || b == 0x5f || b == 0x7e
}

/// Exec mirror of `hex_digit`.
fn hex_digit_exec(n: u8) -> (r: u8)
    requires
        n < 16,
    ensures
        r == hex_digit(n),
{
    if n < 10 {
        0x30 + n
    } else {
        0x41 + (n - 10)
    }
}

/// Percent-encodes a byte string.
pub fn percent_encode(s: &[u8]) -> (r: Vec<u8>)
    ensures
        r@ == percent_encoding(s@),
{
    let mut out: Vec<u8> = Vec::new();
    let mut i: usize = 0;
    proof {
        assert(s@.skip(0) =~= s@);
    }
    while i < s.len()
        invariant
            i <= s@.len(),
            percent_encoding(s@) == out@ + percent_encoding(s@.skip(i as int)),
        decreases s@.len() - i,
    {
        let b = s[i];
        proof {
            assert(s@.skip(i as int)[0] == s@[i as int]);
            assert(s@.skip(i as int).skip(1) =~= s@.skip(i as int + 1));
        }
        if unreserved(b) {
            out.push(b);
        } else {
            out.push(0x25);
            out.push(hex_digit_exec(b / 16));
            out.push(hex_digit_exec(b % 16));
        }
        i = i + 1;
    }
    proof {
        assert(s@.skip(s@.len() as int) =~= Seq::<u8>::empty());
        assert(out@ + percent_encoding(s@.skip(s@.len() as int)) =~= out@);
    }
    out
}

/// Exec mirror of `is_hex_byte`.
fn hex_byte(b: u8) -> (r: bool)
    ensures
        r == is_hex_byte(b),
{
    (0x30 <= b && b <= 0x39) || (0x41 <= b && b <= 0x46) || (0x61 <= b && b <= 0x66)
}

/// Exec mirror of `hex_val`.
fn hex_val_exec(b: u8) -> (r: u8)
    requires
        is_hex_byte(b),
    ensures
        r == hex_val(b),
{
    if 0x30 <= b && b <= 0x39 {
        b - 0x30
    } else if 0x41 <= b && b <= 0x46 {
        b - 0x41 + 10
    } else {
        b - 0x61 + 10
    }
}

/// Percent-decodes a byte string; `None` exactly where an escape is malformed.
pub fn percent_decode(s: &[u8]) -> (r: Option<Vec<u8>>)
    ensures
        r is Some <==> valid_encoded(s@),
        r is Some ==> r->0@ == percent_decoding(s@),
{
    let mut out: Vec<u8> = Vec::new();
    let mut i: usize = 0;
    proof {
        assert(s@.skip(0) =~= s@);
    }
    while i < s.len()
        invariant
            i <= s@.len(),
            valid_encoded(s@) == valid_encoded(s@.skip(i as int)),
            percent_decoding(s@) == out@ + percent_decoding(s@.skip(i as int)),
        decreases s@.len() - i,
    {
        let b = s[i];
        proof {
            assert(s@.skip(i as int)[0] == s@[i as int]);
        }
        if b == 0x25 {
            if s.len() - i < 3 || !hex_byte(s[i + 1]) || !hex_byte(s[i + 2]) {
                proof {
                    assert(!valid_encoded(s@.skip(i as int)));
                }
                return None;
            }
            proof {
                assert(s@.skip(i as int)[1] == s@[i as int + 1]);
                assert(s@.skip(i as int)[2] == s@[i as int + 2]);
                assert(s@.skip(i as int).skip(3) =~= s@.skip(i as int + 3));
            }
            let v = hex_val_exec(s[i + 1]) * 16 + hex_val_exec(s[i + 2]);
            out.push(v);
            i = i + 3;
        } else {
            proof {
                assert(s@.skip(i as int).skip(1) =~= s@.skip(i as int + 1));
            }
            out.push(b);
            i = i + 1;
        }
    }
    proof {
        assert(s@.skip(s@.len() as int) =~= Seq::<u8>::empty());
        assert(out@ + percent_decoding(s@.skip(s@.len() as int)) =~= out@);
    }
    Some(out)
}

} // verus!
