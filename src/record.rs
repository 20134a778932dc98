use vstd::prelude::*;
use vstd::slice::slice_subrange;
use vstd::slice::slice_to_vec;
use vstd::utf8::*;

use crate::bcd::{bcd_text, decode_pack_bcd, digit_value, nibble_at, nibbles_valid, utf8_string};
use crate::error::CodecError;

verus! {

broadcast use group_utf8_lib;

/// Bytes taken by one record carrying a single real-time quote.
pub const RECORD_LEN: usize = 41;

/// Byte offset and width of the stock code text field.
pub const STOCK_CODE_AT: usize = 10;
pub const STOCK_CODE_LEN: usize = 6;

/// One real-time quote group: price and volume as fixed-width digit strings.
#[derive(Debug, PartialEq)]
pub struct RealTimeQuote {
    pub price: String,
    pub volume: String,
}

/// A decoded Format 6 record.
#[derive(Debug, PartialEq)]
pub struct Format6Record {
    pub esc_code: u8,
    pub info_length: u32,
    pub business_type: String,
    pub format_code: String,
    pub version: String,
    pub transmission_sn: String,
    pub stock_code: String,
    pub matching_time: String,
    pub disclosed_item_remarks: u8,
    pub rise_fall_remarks: u8,
    pub status_remarks: u8,
    pub accumulative_volume: u32,
    pub real_time_quotes: Vec<RealTimeQuote>,
    pub checksum: u8,
    pub terminal_code: [u8; 2],
}

/// `10` to the power `n`.
pub open spec fn pow10(n: nat) -> nat
    decreases n,
{
    if n == 0 {
        1
    } else {
        10 * pow10((n - 1) as nat)
    }
}

/// The unsigned integer that the decimal digit string `s` writes.
pub open spec fn digits_value(s: Seq<char>) -> int
    decreases s.len(),
{
    if s.len() == 0 {
        0
    } else {
        digits_value(s.drop_last()) * 10 + digit_value(s.last())
    }
}

/// Unicode `White_Space` characters.
pub open spec fn is_white_space(c: char) -> bool {
    ||| '\u{9}' <= c <= '\u{d}'
    ||| c == ' '
    ||| c == '\u{85}'
    ||| c == '\u{a0}'
    ||| c == '\u{1680}'
    ||| '\u{2000}' <= c <= '\u{200a}'
    ||| c == '\u{2028}'
    ||| c == '\u{2029}'
    ||| c == '\u{202f}'
    ||| c == '\u{205f}'
    ||| c == '\u{3000}'
}

/// `s` without its trailing run of white space.
pub open spec fn trim_end_chars(s: Seq<char>) -> Seq<char>
    decreases s.len(),
{
    if s.len() > 0 && is_white_space(s.last()) {
        trim_end_chars(s.drop_last())
    } else {
        s
    }
}

/// The digits of the BCD field of `width` bytes at `start`.
pub open spec fn field_text(raw: Seq<u8>, start: int, width: int, digits: int) -> Seq<char> {
    bcd_text(raw.subrange(start, start + width), digits)
}

/// The kept nibbles of the BCD field of `width` bytes at `start` are decimal.
pub open spec fn field_valid(raw: Seq<u8>, start: int, width: int, digits: int) -> bool {
    nibbles_valid(raw.subrange(start, start + width), digits)
}

/// The BCD fields before the stock code are decimal.
pub open spec fn header_valid(raw: Seq<u8>) -> bool {
    &&& field_valid(raw, 1, 2, 4)
    &&& field_valid(raw, 3, 1, 2)
    &&& field_valid(raw, 4, 1, 2)
    &&& field_valid(raw, 5, 1, 2)
    &&& field_valid(raw, 6, 4, 8)
}

/// The bytes of the stock code field.
pub open spec fn stock_code_bytes(raw: Seq<u8>) -> Seq<u8> {
    raw.subrange(STOCK_CODE_AT as int, STOCK_CODE_AT + STOCK_CODE_LEN)
}

/// The BCD fields after the stock code are decimal.
pub open spec fn body_valid(raw: Seq<u8>) -> bool {
    &&& field_valid(raw, 16, 6, 12)
    &&& field_valid(raw, 25, 4, 8)
    &&& field_valid(raw, 29, 5, 9)
    &&& field_valid(raw, 34, 4, 8)
}

/// The failure of parsing `raw`, if any: the first field, in layout
/// order, that cannot be read.
pub open spec fn parse_error(raw: Seq<u8>) -> Option<CodecError> {
    if raw.len() < RECORD_LEN {
        Some(CodecError::TruncatedInput)
    } else if !header_valid(raw) {
        Some(CodecError::InvalidDigit)
    } else if !valid_utf8(stock_code_bytes(raw)) {
        Some(CodecError::Encoding)
    } else if !body_valid(raw) {
        Some(CodecError::InvalidDigit)
    } else {
        None
    }
}

impl Format6Record {
    /// Every field of the record holds what the layout puts at its offset in `raw`.
    pub open spec fn parsed_from(&self, raw: Seq<u8>) -> bool {
        &&& self.esc_code == raw[0]
        &&& self.info_length == digits_value(field_text(raw, 1, 2, 4))
        &&& self.business_type@ == field_text(raw, 3, 1, 2)
        &&& self.format_code@ == field_text(raw, 4, 1, 2)
        &&& self.version@ == field_text(raw, 5, 1, 2)
        &&& self.transmission_sn@ == field_text(raw, 6, 4, 8)
        &&& self.stock_code@ == trim_end_chars(decode_utf8(stock_code_bytes(raw)))
        &&& self.matching_time@ == field_text(raw, 16, 6, 12)
        &&& self.disclosed_item_remarks == raw[22]
        &&& self.rise_fall_remarks == raw[23]
        &&& self.status_remarks == raw[24]
        &&& self.accumulative_volume == digits_value(field_text(raw, 25, 4, 8))
        &&& self.real_time_quotes@.len() == 1
        &&& self.real_time_quotes@[0].price@ == field_text(raw, 29, 5, 9)
        &&& self.real_time_quotes@[0].volume@ == field_text(raw, 34, 4, 8)
        &&& self.checksum == raw[38]
        &&& self.terminal_code@ == seq![raw[39], raw[40]]
    }
}

/// Relies on `str::trim_end`: it drops the trailing run of Unicode
/// `White_Space` characters and keeps the rest.
#[verifier::external_body]
fn trim_end(s: &str) -> (r: &str)
    ensures
        r@ == trim_end_chars(s@),
{
    s.trim_end()
}

/// Decodes the BCD field of `width` bytes at `start`.
fn read_bcd(raw: &[u8], start: usize, width: usize, digits: usize) -> (r: Result<String, CodecError>)
    requires
        start + width <= raw.len(),
        digits <= 2 * width,
    ensures
        r is Ok <==> field_valid(raw@, start as int, width as int, digits as int),
        r matches Ok(s) ==> s@ == field_text(raw@, start as int, width as int, digits as int),
        r matches Err(e) ==> e == CodecError::InvalidDigit,
{
    let field = slice_subrange(raw, start, start + width);
    decode_pack_bcd(field, digits)
}

/// The value of the BCD field of `width` bytes at `start`, read as an
/// unsigned integer of `digits` decimal digits.
fn read_bcd_value(raw: &[u8], start: usize, width: usize, digits: usize) -> (r: u32)
    requires
        start + width <= raw.len(),
        digits <= 2 * width,
        digits <= 9,
        field_valid(raw@, start as int, width as int, digits as int),
    ensures
        r == digits_value(field_text(raw@, start as int, width as int, digits as int)),
{
    let ghost b = raw@.subrange(start as int, start + width);
    let mut value: u32 = 0;
    let mut i: usize = 0;
    while i < digits
        invariant
            i <= digits <= 9,
            digits <= 2 * width,
            start + width <= raw.len(),
            b == raw@.subrange(start as int, start + width),
            nibbles_valid(b, digits as int),
            value == digits_value(bcd_text(b, i as int)),
            value < pow10(i as nat),
        decreases digits - i,
    {
        let byte = raw[start + i / 2];
        let nibble: u8 = if i % 2 == 0 { byte / 16 } else { byte % 16 };
        assert(nibble as int == nibble_at(b, i as int));
        assert(nibble <= 9);
        assert(pow10(8) == 100_000_000) by {
            reveal_with_fuel(pow10, 9);
        }
        assert(pow10(i as nat) <= pow10(8)) by {
            lemma_pow10_monotone(i as nat, 8);
        }
        assert(bcd_text(b, i + 1).drop_last() =~= bcd_text(b, i as int));
        value = value * 10 + nibble as u32;
        i = i + 1;
    }
    value
}

proof fn lemma_pow10_monotone(a: nat, b: nat)
    requires
        a <= b,
    ensures
        pow10(a) <= pow10(b),
    decreases b,
{
    if a < b {
        lemma_pow10_monotone(a, (b - 1) as nat);
    }
}

/// Parses one Format 6 record with a single real-time quote from the
/// front of `raw`.
///
/// The fields are read in layout order and the first one that cannot be
/// read decides the error: `TruncatedInput` for a buffer shorter than
/// `RECORD_LEN`, `InvalidDigit` for a BCD field with a kept nibble above 9,
/// `Encoding` for a stock code that is not UTF-8. The stock code loses its
/// trailing white space; bytes past `RECORD_LEN` are ignored.
pub fn parse_format6(raw: &[u8]) -> (r: Result<Format6Record, CodecError>)
    ensures
        match parse_error(raw@) {
            Some(e) => r == Err::<Format6Record, CodecError>(e),
            None => r matches Ok(rec) && rec.parsed_from(raw@),
        },
{
    if raw.len() < RECORD_LEN {
        return Err(CodecError::TruncatedInput);
    }
    let esc_code = raw[0];
    let info_text = read_bcd(raw, 1, 2, 4);
    let business_type = read_bcd(raw, 3, 1, 2);
    let format_code = read_bcd(raw, 4, 1, 2);
    let version = read_bcd(raw, 5, 1, 2);
    let transmission_sn = read_bcd(raw, 6, 4, 8);
    let (business_type, format_code, version, transmission_sn) = match (
        info_text,
        business_type,
        format_code,
        version,
        transmission_sn,
    ) {
        (Ok(_), Ok(b), Ok(f), Ok(v), Ok(t)) => (b, f, v, t),
        _ => return Err(CodecError::InvalidDigit),
    };
    let info_length = read_bcd_value(raw, 1, 2, 4);

    let stock_bytes = slice_to_vec(slice_subrange(raw, STOCK_CODE_AT, STOCK_CODE_AT + STOCK_CODE_LEN));
    let stock_code = match utf8_string(stock_bytes) {
        Some(s) => trim_end(s.as_str()).to_owned(),
        None => return Err(CodecError::Encoding),
    };

    let matching_time = read_bcd(raw, 16, 6, 12);
    let volume_text = read_bcd(raw, 25, 4, 8);
    let price = read_bcd(raw, 29, 5, 9);
    let volume = read_bcd(raw, 34, 4, 8);
    let (matching_time, price, volume) = match (matching_time, volume_text, price, volume) {
        (Ok(m), Ok(_), Ok(p), Ok(v)) => (m, p, v),
        _ => return Err(CodecError::InvalidDigit),
    };
    let accumulative_volume = read_bcd_value(raw, 25, 4, 8);

    let mut real_time_quotes: Vec<RealTimeQuote> = Vec::new();
    real_time_quotes.push(RealTimeQuote { price, volume });
    let rec = Format6Record {
        esc_code,
        info_length,
        business_type,
        format_code,
        version,
        transmission_sn,
        stock_code,
        matching_time,
        disclosed_item_remarks: raw[22],
        rise_fall_remarks: raw[23],
        status_remarks: raw[24],
        accumulative_volume,
        real_time_quotes,
        checksum: raw[38],
        terminal_code: [raw[39], raw[40]],
    };
    assert(rec.terminal_code@ =~= seq![raw@[39], raw@[40]]);
    Ok(rec)
}

/// A buffer shorter than a whole record is always refused as truncated,
/// whatever its bytes, so nothing is read past its end.
pub proof fn lemma_short_buffer_truncated(raw: Seq<u8>)
    requires
        raw.len() < RECORD_LEN,
    ensures
        parse_error(raw) == Some(CodecError::TruncatedInput),
{
}

/// Trimming the end keeps a prefix of the text, every character cut off is
/// white space, and the kept prefix does not end in white space: characters
/// before the trailing run, white space among them, all stay.
pub proof fn lemma_trim_end_shape(s: Seq<char>)
    ensures
        trim_end_chars(s).len() <= s.len(),
        trim_end_chars(s) == s.take(trim_end_chars(s).len() as int),
        forall|i: int| trim_end_chars(s).len() <= i < s.len() ==> is_white_space(#[trigger] s[i]),
        trim_end_chars(s).len() > 0 ==> !is_white_space(trim_end_chars(s).last()),
    decreases s.len(),
{
    if s.len() > 0 && is_white_space(s.last()) {
        let t = s.drop_last();
        lemma_trim_end_shape(t);
        assert(trim_end_chars(t) =~= s.take(trim_end_chars(t).len() as int));
        assert forall|i: int| trim_end_chars(s).len() <= i < s.len() implies is_white_space(#[trigger] s[i]) by {
            if i < t.len() {
                assert(s[i] == t[i]);
            }
        }
    } else {
        assert(s.take(s.len() as int) =~= s);
    }
}

} // verus!
