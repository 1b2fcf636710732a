//! Hexadecimal text codec for values carried over text log channels.

use vstd::prelude::*;

verus! {

/// The lowercase ASCII hex digit for a nibble value.
pub open spec fn hex_digit(v: u8) -> u8
    recommends
        v < 16,
{
    if v < 10 {
        (48 + v) as u8
    } else {
        (87 + v) as u8
    }
}

/// The lowercase hex image of a byte string: two digits per byte, high
/// nibble first.
pub open spec fn hex_seq(b: Seq<u8>) -> Seq<u8> {
    Seq::new(
        2 * b.len(),
        |i: int|
            if i % 2 == 0 {
                hex_digit((b[i / 2] / 16) as u8)
            } else {
                hex_digit((b[i / 2] % 16) as u8)
            },
    )
}

/// Whether a byte is an ASCII hex digit of either case.
pub open spec fn is_hex_digit(c: u8) -> bool {
    (48 <= c <= 57) || (97 <= c <= 102) || (65 <= c <= 70)
}

/// The nibble value of an ASCII hex digit.
pub open spec fn hex_val(c: u8) -> u8
    recommends
        is_hex_digit(c),
{
    if 48 <= c <= 57 {
        (c - 48) as u8
    } else if 97 <= c {
        (c - 87) as u8
    } else {
        (c - 55) as u8
    }
}

/// Whether a byte string is well-formed hex text: even length, hex digits
/// throughout.
pub open spec fn valid_hex(s: Seq<u8>) -> bool {
    s.len() % 2 == 0 && forall|i: int| 0 <= i < s.len() ==> is_hex_digit(#[trigger] s[i])
}

/// The bytes a well-formed hex text decodes to.
pub open spec fn unhex_seq(s: Seq<u8>) -> Seq<u8> {
    Seq::new(s.len() / 2, |i: int| (hex_val(s[2 * i]) * 16 + hex_val(s[2 * i + 1])) as u8)
}

/// Relies on `hex::encode`: two lowercase digits per byte, high nibble
/// first, as bytes of the returned string.
#[verifier::external_body]
pub(crate) fn hex_encode(data: &[u8]) -> (r: Vec<u8>)
    ensures
        r@ == hex_seq(data@),
{
    hex::encode(data).into_bytes()
}

/// Relies on `hex::decode`: succeeds exactly on even-length strings of hex
/// digits of either case, and returns their byte value (each digit pair is
/// one byte, high nibble first).
#[verifier::external_body]
pub(crate) fn hex_decode(data: &[u8]) -> (r: Option<Vec<u8>>)
    ensures
        r is Some <==> valid_hex(data@),
        r matches Some(v) ==> v@ == unhex_seq(data@),
{
    hex::decode(data).ok()
}

/// Pair-offset arithmetic within the two-digits-per-byte layout.
proof fn lemma_div_mod_2(i: int)
    requires
        i >= 0,
    ensures
        (2 * i) / 2 == i,
        (2 * i) % 2 == 0,
        (2 * i + 1) / 2 == i,
        (2 * i + 1) % 2 == 1,
{
    vstd::arithmetic::div_mod::lemma_fundamental_div_mod_converse_div(2 * i, 2, i, 0);
    vstd::arithmetic::div_mod::lemma_fundamental_div_mod_converse_mod(2 * i, 2, i, 0);
    vstd::arithmetic::div_mod::lemma_fundamental_div_mod_converse_div(2 * i + 1, 2, i, 1);
    vstd::arithmetic::div_mod::lemma_fundamental_div_mod_converse_mod(2 * i + 1, 2, i, 1);
}

/// Law: the hex image of any byte string is well-formed hex text, and
/// decoding it returns the original bytes.
pub proof fn lemma_hex_round_trip(b: Seq<u8>)
    ensures
        valid_hex(hex_seq(b)),
        unhex_seq(hex_seq(b)) == b,
{
    let h = hex_seq(b);
    assert(h.len() == 2 * b.len());
    lemma_div_mod_2(b.len() as int);
    assert forall|i: int| 0 <= i < h.len() implies is_hex_digit(#[trigger] h[i]) by {
        vstd::arithmetic::div_mod::lemma_mod_bound(i, 2);
        vstd::arithmetic::div_mod::lemma_div_pos_is_pos(i, 2);
        vstd::arithmetic::div_mod::lemma_div_is_ordered(i, h.len() - 1, 2);
        let v = b[i / 2];
        vstd::arithmetic::div_mod::lemma_div_is_ordered(v as int, 255, 16);
        vstd::arithmetic::div_mod::lemma_div_pos_is_pos(v as int, 16);
        vstd::arithmetic::div_mod::lemma_mod_bound(v as int, 16);
    }
    assert forall|i: int| 0 <= i < b.len() implies unhex_seq(h)[i] == b[i] by {
        lemma_div_mod_2(i);
        let v = b[i];
        vstd::arithmetic::div_mod::lemma_div_is_ordered(v as int, 255, 16);
        vstd::arithmetic::div_mod::lemma_div_pos_is_pos(v as int, 16);
        vstd::arithmetic::div_mod::lemma_mod_bound(v as int, 16);
        assert(h[2 * i] == hex_digit((v / 16) as u8));
        assert(h[2 * i + 1] == hex_digit((v % 16) as u8));
        assert(hex_val(hex_digit((v / 16) as u8)) == v / 16);
        assert(hex_val(hex_digit((v % 16) as u8)) == v % 16);
        vstd::arithmetic::div_mod::lemma_fundamental_div_mod(v as int, 16);
    }
    assert(unhex_seq(h) =~= b);
}

} // verus!
