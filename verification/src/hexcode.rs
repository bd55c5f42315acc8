//! Hexadecimal text representation of byte sequences.
//!
//! The disk image format stores every block body as uppercase hexadecimal
//! text, two digits per byte.  The spec functions here define that mapping;
//! the executable entry points delegate the byte-level work to the `hex`
//! crate through trusted wrappers whose contracts restate what that crate's
//! documentation promises.

use vstd::prelude::*;
use vstd::string::StringExecFns;

verus! {

/// A character that `hex::decode` accepts: either case is allowed.
pub open spec fn is_hex_digit(c: char) -> bool {
    ('0' <= c && c <= '9') || ('a' <= c && c <= 'f') || ('A' <= c && c <= 'F')
}

/// Every character of `s` is a hexadecimal digit.
pub open spec fn is_hex_seq(s: Seq<char>) -> bool {
    forall|i: int| 0 <= i < s.len() ==> is_hex_digit(#[trigger] s[i])
}

/// Numeric value of one hexadecimal digit.
pub open spec fn hex_val(c: char) -> u8
    recommends
        is_hex_digit(c),
{
    if '0' <= c && c <= '9' {
        (c as u8 - '0' as u8) as u8
    } else if 'a' <= c && c <= 'f' {
        (c as u8 - 'a' as u8 + 10) as u8
    } else {
        (c as u8 - 'A' as u8 + 10) as u8
    }
}

/// Uppercase digit character for a value below 16.
pub open spec fn hex_digit_upper(v: u8) -> char
    recommends
        v < 16,
{
    if v < 10 {
        ('0' as u8 + v) as char
    } else {
        ('A' as u8 + v - 10) as char
    }
}

/// The two uppercase digits of one byte, high nibble first.
pub open spec fn byte_hex(b: u8) -> Seq<char> {
    seq![hex_digit_upper(b / 16), hex_digit_upper(b % 16)]
}

/// Uppercase hexadecimal text of a byte sequence, two digits per byte.
pub open spec fn hex_upper_of(bytes: Seq<u8>) -> Seq<char>
    decreases bytes.len(),
{
    if bytes.len() == 0 {
        Seq::empty()
    } else {
        byte_hex(bytes[0]) + hex_upper_of(bytes.drop_first())
    }
}

/// The bytes denoted by an even-length sequence of hexadecimal digits.
pub open spec fn bytes_of_hex(s: Seq<char>) -> Seq<u8>
    recommends
        s.len() % 2 == 0,
        is_hex_seq(s),
    decreases s.len(),
{
    if s.len() < 2 {
        Seq::empty()
    } else {
        seq![(16 * hex_val(s[0]) + hex_val(s[1])) as u8] + bytes_of_hex(s.skip(2))
    }
}

/// A character that the encoder can produce: digits and uppercase letters only.
pub open spec fn is_upper_hex_digit(c: char) -> bool {
    ('0' <= c && c <= '9') || ('A' <= c && c <= 'F')
}

/// Every character of `s` is an uppercase hexadecimal digit.
pub open spec fn is_upper_hex_seq(s: Seq<char>) -> bool {
    forall|i: int| 0 <= i < s.len() ==> is_upper_hex_digit(#[trigger] s[i])
}

pub proof fn lemma_hex_digit_upper(v: u8)
    requires
        v < 16,
    ensures
        is_upper_hex_digit(hex_digit_upper(v)),
        is_hex_digit(hex_digit_upper(v)),
        hex_val(hex_digit_upper(v)) == v,
{
}

pub proof fn lemma_hex_val_bound(c: char)
    requires
        is_hex_digit(c),
    ensures
        hex_val(c) < 16,
        is_upper_hex_digit(c) ==> hex_digit_upper(hex_val(c)) == c,
{
}

pub proof fn lemma_hex_upper_len(bytes: Seq<u8>)
    ensures
        hex_upper_of(bytes).len() == 2 * bytes.len(),
        is_upper_hex_seq(hex_upper_of(bytes)),
        is_hex_seq(hex_upper_of(bytes)),
    decreases bytes.len(),
{
    if bytes.len() == 0 {
    } else {
        lemma_hex_upper_len(bytes.drop_first());
        lemma_hex_digit_upper(bytes[0] / 16);
        lemma_hex_digit_upper(bytes[0] % 16);
        let s = hex_upper_of(bytes);
        assert forall|i: int| 0 <= i < s.len() implies is_upper_hex_digit(#[trigger] s[i])
            && is_hex_digit(s[i]) by {
            if i >= 2 {
                assert(s[i] == hex_upper_of(bytes.drop_first())[i - 2]);
            }
        }
    }
}

pub proof fn lemma_bytes_of_hex_len(s: Seq<char>)
    ensures
        bytes_of_hex(s).len() == s.len() / 2,
    decreases s.len(),
{
    if s.len() < 2 {
    } else {
        lemma_bytes_of_hex_len(s.skip(2));
    }
}

/// Decoding the uppercase hexadecimal text of a byte sequence yields the
/// bytes again.
pub proof fn lemma_hex_round_trip(bytes: Seq<u8>)
    ensures
        bytes_of_hex(hex_upper_of(bytes)) == bytes,
    decreases bytes.len(),
{
    if bytes.len() == 0 {
        assert(bytes_of_hex(hex_upper_of(bytes)) =~= bytes);
    } else {
        let b = bytes[0];
        let s = hex_upper_of(bytes);
        lemma_hex_round_trip(bytes.drop_first());
        lemma_hex_digit_upper(b / 16);
        lemma_hex_digit_upper(b % 16);
        lemma_hex_upper_len(bytes.drop_first());
        assert(s.len() >= 2);
        assert(s[0] == hex_digit_upper(b / 16) && s[1] == hex_digit_upper(b % 16));
        assert(16 * (b / 16) + b % 16 == b) by (nonlinear_arith);
        assert(s.skip(2) =~= hex_upper_of(bytes.drop_first()));
        assert(bytes_of_hex(s) =~= bytes);
    }
}

/// Encoding the bytes denoted by even-length uppercase hexadecimal text
/// yields the text again.
pub proof fn lemma_hex_round_trip_text(s: Seq<char>)
    requires
        s.len() % 2 == 0,
        is_upper_hex_seq(s),
    ensures
        hex_upper_of(bytes_of_hex(s)) == s,
    decreases s.len(),
{
    if s.len() == 0 {
        assert(hex_upper_of(bytes_of_hex(s)) =~= s);
    } else {
        assert(is_upper_hex_digit(s[0]) && is_upper_hex_digit(s[1]));
        lemma_hex_val_bound(s[0]);
        lemma_hex_val_bound(s[1]);
        let b = (16 * hex_val(s[0]) + hex_val(s[1])) as u8;
        assert(b / 16 == hex_val(s[0]) && b % 16 == hex_val(s[1])) by (nonlinear_arith)
            requires
                hex_val(s[0]) < 16 && hex_val(s[1]) < 16 && b == 16 * hex_val(s[0]) + hex_val(
                    s[1],
                ),
        ;
        assert(forall|i: int| 0 <= i < s.skip(2).len() ==> is_upper_hex_digit(#[trigger] s.skip(2)[i]));
        lemma_hex_round_trip_text(s.skip(2));
        let bs = bytes_of_hex(s);
        assert(bs == seq![b] + bytes_of_hex(s.skip(2)));
        assert(bs.drop_first() =~= bytes_of_hex(s.skip(2)));
        assert(bs[0] == b);
        assert(hex_upper_of(bs) =~= s);
    }
}

/// Uppercase hexadecimal digits of `n`, most significant first, without
/// leading zeros.
pub open spec fn spec_hex_nat(n: int) -> Seq<char>
    recommends
        n >= 0,
    decreases n,
{
    if n < 16 {
        seq![hex_digit_upper(n as u8)]
    } else {
        spec_hex_nat(n / 16) + seq![hex_digit_upper((n % 16) as u8)]
    }
}

/// The one-character string of an uppercase hexadecimal digit.
pub fn digit_str(v: u8) -> (r: &'static str)
    requires
        v < 16,
    ensures
        r@ == seq![hex_digit_upper(v)],
{
    proof {
        reveal_strlit("0");
        reveal_strlit("1");
        reveal_strlit("2");
        reveal_strlit("3");
        reveal_strlit("4");
        reveal_strlit("5");
        reveal_strlit("6");
        reveal_strlit("7");
        reveal_strlit("8");
        reveal_strlit("9");
        reveal_strlit("A");
        reveal_strlit("B");
        reveal_strlit("C");
        reveal_strlit("D");
        reveal_strlit("E");
        reveal_strlit("F");
    }
    let r: &'static str = if v == 0 {
        "0"
    } else if v == 1 {
        "1"
    } else if v == 2 {
        "2"
    } else if v == 3 {
        "3"
    } else if v == 4 {
        "4"
    } else if v == 5 {
        "5"
    } else if v == 6 {
        "6"
    } else if v == 7 {
        "7"
    } else if v == 8 {
        "8"
    } else if v == 9 {
        "9"
    } else if v == 10 {
        "A"
    } else if v == 11 {
        "B"
    } else if v == 12 {
        "C"
    } else if v == 13 {
        "D"
    } else if v == 14 {
        "E"
    } else {
        "F"
    };
    proof {
        assert(r@ =~= seq![hex_digit_upper(v)]);
    }
    r
}

/// Uppercase hexadecimal text of `n`, without leading zeros.
pub fn hex_usize(n: usize) -> (r: String)
    ensures
        r@ == spec_hex_nat(n as int),
    decreases n,
{
    if n < 16 {
        String::from_str(digit_str(n as u8))
    } else {
        let mut s = hex_usize(n / 16);
        s.append(digit_str((n % 16) as u8));
        s
    }
}

/// Relies on `hex::decode`: it succeeds exactly on even-length strings of
/// hexadecimal digits (either case) and returns the bytes they denote,
/// high nibble first.
#[verifier::external_body]
pub fn hex_decode(s: &str) -> (r: Option<Vec<u8>>)
    ensures
        r is Some <==> (s@.len() % 2 == 0 && is_hex_seq(s@)),
        r is Some ==> r->0@ == bytes_of_hex(s@),
{
    match hex::decode(s) {
        Ok(v) => Some(v),
        Err(_) => None,
    }
}

/// Relies on `hex::encode_upper`: each input byte becomes two uppercase
/// hexadecimal digits, high nibble first.
#[verifier::external_body]
pub fn hex_encode_upper(bytes: &Vec<u8>) -> (r: String)
    ensures
        r@ == hex_upper_of(bytes@),
{
    hex::encode_upper(bytes)
}

} // verus!
