use vstd::prelude::*;
use vstd::utf8::*;

use crate::error::CodecError;

verus! {

broadcast use group_utf8_lib;

/// The `i`-th nibble of `b`: high nibble of each byte first, then its low nibble.
pub open spec fn nibble_at(b: Seq<u8>, i: int) -> int {
    if i % 2 == 0 {
        b[i / 2] as int / 16
    } else {
        b[i / 2] as int % 16
    }
}

/// The ASCII character of the decimal digit `d`.
pub open spec fn digit_char(d: int) -> char {
    (d + 48) as char
}

/// The numeric value of a decimal digit character.
pub open spec fn digit_value(c: char) -> int {
    c as int - 48
}

pub open spec fn is_digit_char(c: char) -> bool {
    '0' <= c <= '9'
}

pub open spec fn all_digits(s: Seq<char>) -> bool {
    forall|i: int| 0 <= i < s.len() ==> is_digit_char(#[trigger] s[i])
}

/// The first `n` nibbles of `b` are all decimal digits.
pub open spec fn nibbles_valid(b: Seq<u8>, n: int) -> bool {
    forall|i: int| 0 <= i < n ==> #[trigger] nibble_at(b, i) <= 9
}

/// The digit string made of the first `n` nibbles of `b`.
pub open spec fn bcd_text(b: Seq<u8>, n: int) -> Seq<char> {
    Seq::new(n as nat, |i: int| digit_char(nibble_at(b, i)))
}

/// What decoding `n` digits out of `b` gives.
pub open spec fn decode_result(b: Seq<u8>, n: int) -> Result<Seq<char>, CodecError> {
    if n > 2 * b.len() {
        Err(CodecError::Length)
    } else if !nibbles_valid(b, n) {
        Err(CodecError::InvalidDigit)
    } else {
        Ok(bcd_text(b, n))
    }
}

/// The `j`-th byte of the packed form of `d`: two digits per byte, high
/// nibble first, and a low nibble of `0xF` after the last digit of an
/// odd-length string.
pub open spec fn packed_byte(d: Seq<char>, j: int) -> u8 {
    let low = if 2 * j + 1 < d.len() { digit_value(d[2 * j + 1]) } else { 15 };
    (digit_value(d[2 * j]) * 16 + low) as u8
}

/// The packed-BCD bytes of the digit string `d`.
pub open spec fn pack_digits(d: Seq<char>) -> Seq<u8> {
    Seq::new(((d.len() + 1) / 2) as nat, |j: int| packed_byte(d, j))
}

/// Relies on `String::from_utf8`: it succeeds exactly on valid UTF-8, and
/// then holds the characters that the bytes encode.
#[verifier::external_body]
pub(crate) fn utf8_string(bytes: Vec<u8>) -> (r: Option<String>)
    ensures
        r is Some <==> valid_utf8(bytes@),
        r matches Some(s) ==> s@ == decode_utf8(bytes@),
{
    String::from_utf8(bytes).ok()
}

/// ASCII bytes are valid UTF-8, one character per byte.
pub(crate) proof fn lemma_ascii_utf8(bytes: Seq<u8>)
    requires
        forall|i: int| 0 <= i < bytes.len() ==> #[trigger] bytes[i] < 128,
    ensures
        valid_utf8(bytes),
        decode_utf8(bytes) == Seq::new(bytes.len(), |i: int| bytes[i] as char),
{
    let chars = Seq::new(bytes.len(), |i: int| bytes[i] as char);
    assert(is_ascii_chars(chars));
    is_ascii_chars_encode_utf8(chars);
    assert(encode_utf8(chars) =~= bytes);
}

/// Decodes the first `digit_count` digits of the packed-BCD bytes `encoded`.
///
/// Each byte holds two digits, high nibble first. Fails with `Length` when
/// the bytes hold fewer than `digit_count` digits, and with `InvalidDigit`
/// when one of the kept nibbles is above 9; a nibble past `digit_count`
/// (the padding of an odd-length field) is not examined.
pub fn decode_pack_bcd(encoded: &[u8], digit_count: usize) -> (r: Result<String, CodecError>)
    ensures
        match decode_result(encoded@, digit_count as int) {
            Ok(d) => r matches Ok(s) && s@ == d,
            Err(e) => r == Err::<String, CodecError>(e),
        },
{
    if digit_count / 2 + digit_count % 2 > encoded.len() {
        return Err(CodecError::Length);
    }
    let mut digits: Vec<u8> = Vec::with_capacity(digit_count);
    let mut i: usize = 0;
    while i < digit_count
        invariant
            i <= digit_count <= 2 * encoded@.len(),
            digits@.len() == i,
            forall|j: int| 0 <= j < i ==> nibble_at(encoded@, j) <= 9,
            forall|j: int| 0 <= j < i ==> #[trigger] digits@[j] == nibble_at(encoded@, j) + 48,
        decreases digit_count - i,
    {
        let byte = encoded[i / 2];
        let nibble: u8 = if i % 2 == 0 { byte / 16 } else { byte % 16 };
        if nibble > 9 {
            assert(!nibbles_valid(encoded@, digit_count as int)) by {
                assert(nibble_at(encoded@, i as int) > 9);
            }
            return Err(CodecError::InvalidDigit);
        }
        digits.push(nibble + 48);
        i = i + 1;
    }
    let ghost bytes = digits@;
    proof {
        lemma_ascii_utf8(bytes);
        assert(Seq::new(bytes.len(), |j: int| bytes[j] as char) =~= bcd_text(encoded@, digit_count as int));
    }
    // ASCII digits are always UTF-8: the `None` arm is never taken.
    match utf8_string(digits) {
        Some(s) => Ok(s),
        None => Err(CodecError::Encoding),
    }
}

/// Packs the decimal digit string `digits` into BCD, two digits per byte,
/// high nibble first. An odd-length string gets `0xF` as its last low
/// nibble. Fails with `InvalidDigit` when a character is not `'0'..='9'`.
pub fn encode_pack_bcd(digits: &str) -> (r: Result<Vec<u8>, CodecError>)
    ensures
        r is Ok <==> all_digits(digits@),
        r matches Ok(b) ==> b@ == pack_digits(digits@),
        r matches Err(e) ==> e == CodecError::InvalidDigit,
{
    let ghost d = digits@;
    let mut encoded: Vec<u8> = Vec::new();
    let mut high: u8 = 0;
    let mut pending: bool = false;
    for c in it: digits.chars()
        invariant
            it.seq() == d,
            d == digits@,
            all_digits(it.seq().take(it.index() as int)),
            pending == (it.index() % 2 == 1),
            high <= 9,
            pending ==> high as int == digit_value(d[it.index() - 1]),
            encoded@ =~= pack_digits(d.take(it.index() as int - it.index() as int % 2)),
    {
        assert(c == d[it.index() as int]);
        if c < '0' || c > '9' {
            assert(!is_digit_char(d[it.index() as int]));

            return Err(CodecError::InvalidDigit);
        }
        let value: u8 = (c as u32 - 48) as u8;
        if pending {
            encoded.push(high * 16 + value);
            pending = false;
        } else {
            high = value;
            pending = true;
        }
    }
    assert(d.take(d.len() as int) =~= d);
    if pending {
        encoded.push(high * 16 + 15);
    }
    Ok(encoded)
}

/// Decoding `n` digits, where the bytes hold at least `n` digits and the
/// first `n` nibbles are decimal, gives exactly `n` characters, all of
/// them `'0'..='9'`.
pub proof fn lemma_decode_length_and_digits(b: Seq<u8>, n: int)
    requires
        0 <= n <= 2 * b.len(),
        nibbles_valid(b, n),
    ensures
        decode_result(b, n) matches Ok(s) && s.len() == n && all_digits(s),
{
    let s = bcd_text(b, n);
    assert forall|i: int| 0 <= i < s.len() implies is_digit_char(#[trigger] s[i]) by {
        assert(nibble_at(b, i) <= 9);
        assert(0 <= nibble_at(b, i)) by (nonlinear_arith)
            requires
                0 <= b[i / 2] as int,
        ;
    }
}

/// Each nibble of the packed form is the digit that it stands for.
proof fn lemma_packed_nibble(d: Seq<char>, i: int)
    requires
        all_digits(d),
        0 <= i < d.len(),
    ensures
        nibble_at(pack_digits(d), i) == digit_value(d[i]),
{
    let j = i / 2;
    assert(is_digit_char(d[2 * j]));
    let high = digit_value(d[2 * j]);
    let low = if 2 * j + 1 < d.len() {
        assert(is_digit_char(d[2 * j + 1]));
        digit_value(d[2 * j + 1])
    } else {
        15
    };
    assert(0 <= high <= 9 && 0 <= low <= 15);
    let x = high * 16 + low;
    assert(x / 16 == high && x % 16 == low) by (nonlinear_arith)
        requires
            x == high * 16 + low,
            0 <= low < 16,
    ;
    assert(pack_digits(d)[j] as int == x);
}

/// Packing a decimal digit string and decoding as many digits as it has
/// gives the string back, whatever its length: for an odd length the
/// padding nibble lies past the digits kept.
pub proof fn lemma_round_trip(d: Seq<char>)
    requires
        all_digits(d),
    ensures
        decode_result(pack_digits(d), d.len() as int) == Ok::<Seq<char>, CodecError>(d),
{
    let b = pack_digits(d);
    let n = d.len() as int;
    assert forall|i: int| 0 <= i < n implies #[trigger] nibble_at(b, i) <= 9 by {
        lemma_packed_nibble(d, i);
        assert(is_digit_char(d[i]));
    }
    assert forall|i: int| 0 <= i < n implies #[trigger] bcd_text(b, n)[i] == d[i] by {
        lemma_packed_nibble(d, i);
        assert(is_digit_char(d[i]));
    }
    assert(bcd_text(b, n) =~= d);
}

} // verus!
