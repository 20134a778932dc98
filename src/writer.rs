use vstd::prelude::*;
use vstd::string::*;
use vstd::utf8::*;

use crate::bcd::{
    all_digits, digit_char, digit_value, encode_pack_bcd, lemma_ascii_utf8, lemma_round_trip,
    pack_digits, utf8_string,
};
use crate::error::CodecError;
use crate::record::{
    digits_value, field_text, field_valid, parse_error, pow10, stock_code_bytes, trim_end_chars,
    Format6Record, RECORD_LEN, STOCK_CODE_LEN,
};

verus! {

broadcast use group_utf8_lib;

/// The last `n` decimal digits of `v`, leading zeros included.
pub open spec fn number_digits(v: nat, n: nat) -> Seq<char>
    decreases n,
{
    if n == 0 {
        Seq::empty()
    } else {
        number_digits(v / 10, (n - 1) as nat).push(digit_char((v % 10) as int))
    }
}

/// `b` followed by spaces up to `width` bytes.
pub open spec fn pad_spaces(b: Seq<u8>, width: nat) -> Seq<u8> {
    b + Seq::new((width - b.len()) as nat, |i: int| 0x20u8)
}

/// `a` when it holds an error, else `b`.
pub open spec fn first_error(a: Option<CodecError>, b: Option<CodecError>) -> Option<CodecError> {
    if a is Some {
        a
    } else {
        b
    }
}

/// Why the digit string `s` does not fill a slot of `n` digits, if it does not.
pub open spec fn digit_field_error(s: Seq<char>, n: nat) -> Option<CodecError> {
    if s.len() != n {
        Some(CodecError::FieldTooLong)
    } else if !all_digits(s) {
        Some(CodecError::InvalidDigit)
    } else {
        None
    }
}

/// Why `v` does not fit a slot of `n` digits, if it does not.
pub open spec fn number_field_error(v: nat, limit: nat) -> Option<CodecError> {
    if v >= limit {
        Some(CodecError::FieldTooLong)
    } else {
        None
    }
}

/// The failure of encoding `rec`, if any: the first field, in layout
/// order, that does not fit its slot.
pub open spec fn encode_error(rec: &Format6Record) -> Option<CodecError> {
    first_error(
        number_field_error(rec.info_length as nat, 10_000),
        first_error(
            digit_field_error(rec.business_type@, 2),
            first_error(
                digit_field_error(rec.format_code@, 2),
                first_error(
                    digit_field_error(rec.version@, 2),
                    first_error(
                        digit_field_error(rec.transmission_sn@, 8),
                        first_error(
                            if encode_utf8(rec.stock_code@).len() > STOCK_CODE_LEN {
                                Some(CodecError::FieldTooLong)
                            } else {
                                None
                            },
                            first_error(
                                digit_field_error(rec.matching_time@, 12),
                                first_error(
                                    number_field_error(rec.accumulative_volume as nat, 100_000_000),
                                    quotes_error(rec),
                                ),
                            ),
                        ),
                    ),
                ),
            ),
        ),
    )
}

/// Why the quote section of `rec` cannot be written, if it cannot: it must
/// hold exactly one quote, of a 9-digit price and an 8-digit volume.
pub open spec fn quotes_error(rec: &Format6Record) -> Option<CodecError> {
    if rec.real_time_quotes@.len() != 1 {
        Some(CodecError::FieldTooLong)
    } else {
        first_error(
            digit_field_error(rec.real_time_quotes@[0].price@, 9),
            digit_field_error(rec.real_time_quotes@[0].volume@, 8),
        )
    }
}

/// The bytes that encoding `rec` writes.
pub open spec fn record_bytes(rec: &Format6Record) -> Seq<u8> {
    seq![rec.esc_code] + pack_digits(number_digits(rec.info_length as nat, 4)) + pack_digits(
        rec.business_type@,
    ) + pack_digits(rec.format_code@) + pack_digits(rec.version@) + pack_digits(
        rec.transmission_sn@,
    ) + pad_spaces(encode_utf8(rec.stock_code@), STOCK_CODE_LEN as nat) + pack_digits(
        rec.matching_time@,
    ) + seq![rec.disclosed_item_remarks, rec.rise_fall_remarks, rec.status_remarks]
        + pack_digits(number_digits(rec.accumulative_volume as nat, 8)) + pack_digits(
        rec.real_time_quotes@[0].price@,
    ) + pack_digits(rec.real_time_quotes@[0].volume@) + seq![rec.checksum] + rec.terminal_code@
}

proof fn lemma_number_digits_are_digits(v: nat, n: nat)
    ensures
        number_digits(v, n).len() == n,
        all_digits(number_digits(v, n)),
        forall|i: int| 0 <= i < n ==> (#[trigger] number_digits(v, n)[i]) as int >= 48 && number_digits(v, n)[i] as int <= 57,
    decreases n,
{
    if n > 0 {
        lemma_number_digits_are_digits(v / 10, (n - 1) as nat);
    }
}

/// The digit string of the last `n` decimal digits of `v`.
fn number_text(v: u32, n: usize) -> (r: String)
    ensures
        r@ == number_digits(v as nat, n as nat),
{
    let mut bytes: Vec<u8> = Vec::new();
    let mut rest: u32 = v;
    let mut k: usize = 0;
    proof {
        lemma_number_digits_are_digits(v as nat, n as nat);
    }
    while k < n
        invariant
            k <= n,
            bytes@.len() == k,
            forall|i: int| 0 <= i < k ==> 48 <= #[trigger] bytes@[i] <= 57,
            number_digits(v as nat, n as nat) =~= number_digits(rest as nat, (n - k) as nat) + Seq::new(
                k as nat,
                |i: int| bytes@[i] as char,
            ),
        decreases n - k,
    {
        let digit: u8 = (rest % 10) as u8;
        let ghost old_bytes = bytes@;
        let ghost old_rest = rest;
        bytes.insert(0, digit + 48);
        rest = rest / 10;
        k = k + 1;
        proof {
            assert(Seq::new(k as nat, |i: int| bytes@[i] as char) =~= seq![digit_char(
                (old_rest % 10) as int,
            )] + Seq::new((k - 1) as nat, |i: int| old_bytes[i] as char));
        }
    }
    let ghost b = bytes@;
    proof {
        lemma_ascii_utf8(b);
    }
    // ASCII digits are always UTF-8: the `None` arm is never taken.
    match utf8_string(bytes) {
        Some(s) => s,
        None => String::new(),
    }
}

/// Packs the digit string `s` into a slot of `n` digits.
fn pack_field(s: &String, n: usize) -> (r: Result<Vec<u8>, CodecError>)
    ensures
        match digit_field_error(s@, n as nat) {
            Some(e) => r == Err::<Vec<u8>, CodecError>(e),
            None => r matches Ok(b) && b@ == pack_digits(s@),
        },
{
    let text = s.as_str();
    if text.unicode_len() != n {
        return Err(CodecError::FieldTooLong);
    }
    encode_pack_bcd(text)
}

/// Packs the last `n` decimal digits of `v`.
fn pack_number(v: u32, n: usize) -> (r: Vec<u8>)
    ensures
        r@ == pack_digits(number_digits(v as nat, n as nat)),
{
    let text = number_text(v, n);
    proof {
        lemma_number_digits_are_digits(v as nat, n as nat);
    }
    // The text is all digits: the `Err` arm is never taken.
    match encode_pack_bcd(text.as_str()) {
        Ok(b) => b,
        Err(_) => Vec::new(),
    }
}

/// Writes `rec` back into the byte layout that `parse_format6` reads.
///
/// Digit strings are packed at their field's width, the counts are written
/// as fixed-width decimal, and the stock code is padded with trailing
/// spaces. Fails, at the first field in layout order that does not fit,
/// with `FieldTooLong` (a digit string of the wrong length, a count too
/// large for its digits, a stock code over its width, a quote count other
/// than one) or `InvalidDigit` (a digit string holding a non-digit).
pub fn encode_format6(rec: &Format6Record) -> (r: Result<Vec<u8>, CodecError>)
    ensures
        match encode_error(rec) {
            Some(e) => r == Err::<Vec<u8>, CodecError>(e),
            None => r matches Ok(b) && b@ == record_bytes(rec),
        },
{
    if rec.info_length >= 10_000 {
        return Err(CodecError::FieldTooLong);
    }
    let business_type = match pack_field(&rec.business_type, 2) {
        Ok(b) => b,
        Err(e) => return Err(e),
    };
    let format_code = match pack_field(&rec.format_code, 2) {
        Ok(b) => b,
        Err(e) => return Err(e),
    };
    let version = match pack_field(&rec.version, 2) {
        Ok(b) => b,
        Err(e) => return Err(e),
    };
    let transmission_sn = match pack_field(&rec.transmission_sn, 8) {
        Ok(b) => b,
        Err(e) => return Err(e),
    };
    let stock = rec.stock_code.as_str().as_bytes();
    if stock.len() > STOCK_CODE_LEN {
        return Err(CodecError::FieldTooLong);
    }
    let matching_time = match pack_field(&rec.matching_time, 12) {
        Ok(b) => b,
        Err(e) => return Err(e),
    };
    if rec.accumulative_volume >= 100_000_000 {
        return Err(CodecError::FieldTooLong);
    }
    if rec.real_time_quotes.len() != 1 {
        return Err(CodecError::FieldTooLong);
    }
    let quote = &rec.real_time_quotes[0];
    assert(quote.price@ == rec.real_time_quotes@[0].price@);
    let price = match pack_field(&quote.price, 9) {
        Ok(b) => b,
        Err(e) => return Err(e),
    };
    let volume = match pack_field(&quote.volume, 8) {
        Ok(b) => b,
        Err(e) => return Err(e),
    };

    let mut out: Vec<u8> = Vec::new();
    out.push(rec.esc_code);
    assert(out@ =~= seq![rec.esc_code]);
    let mut info = pack_number(rec.info_length, 4);
    out.append(&mut info);
    let mut business_type = business_type;
    out.append(&mut business_type);
    let mut format_code = format_code;
    out.append(&mut format_code);
    let mut version = version;
    out.append(&mut version);
    let mut transmission_sn = transmission_sn;
    out.append(&mut transmission_sn);
    let mut i: usize = 0;
    while i < STOCK_CODE_LEN
        invariant
            i <= STOCK_CODE_LEN,
            stock@.len() <= STOCK_CODE_LEN,
            stock@ == encode_utf8(rec.stock_code@),
            matching_time@ == pack_digits(rec.matching_time@),
            price@ == pack_digits(rec.real_time_quotes@[0].price@),
            volume@ == pack_digits(rec.real_time_quotes@[0].volume@),
            out@ =~= seq![rec.esc_code] + pack_digits(number_digits(rec.info_length as nat, 4))
                + pack_digits(rec.business_type@) + pack_digits(rec.format_code@) + pack_digits(
                rec.version@,
            ) + pack_digits(rec.transmission_sn@) + pad_spaces(stock@, STOCK_CODE_LEN as nat).take(
                i as int,
            ),
        decreases STOCK_CODE_LEN - i,
    {
        if i < stock.len() {
            out.push(stock[i]);
        } else {
            out.push(0x20);
        }
        i = i + 1;
    }
    assert(out@ == seq![rec.esc_code] + pack_digits(number_digits(rec.info_length as nat, 4)) + pack_digits(
        rec.business_type@,
    ) + pack_digits(rec.format_code@) + pack_digits(rec.version@) + pack_digits(
        rec.transmission_sn@,
    ) + pad_spaces(encode_utf8(rec.stock_code@), STOCK_CODE_LEN as nat)) by {
        assert(pad_spaces(stock@, STOCK_CODE_LEN as nat).take(STOCK_CODE_LEN as int) =~= pad_spaces(
            stock@,
            STOCK_CODE_LEN as nat,
        ));
    }
    let mut matching_time = matching_time;
    out.append(&mut matching_time);
    let ghost before_remarks = out@;
    out.push(rec.disclosed_item_remarks);
    out.push(rec.rise_fall_remarks);
    out.push(rec.status_remarks);
    assert(out@ =~= before_remarks + seq![
        rec.disclosed_item_remarks,
        rec.rise_fall_remarks,
        rec.status_remarks,
    ]);
    let mut accumulated = pack_number(rec.accumulative_volume, 8);
    out.append(&mut accumulated);
    let mut price = price;
    out.append(&mut price);
    let mut volume = volume;
    out.append(&mut volume);
    let ghost before_checksum = out@;
    out.push(rec.checksum);
    out.push(rec.terminal_code[0]);
    out.push(rec.terminal_code[1]);
    assert(out@ =~= before_checksum + seq![rec.checksum] + rec.terminal_code@);
    assert(out@ == record_bytes(rec));
    Ok(out)
}

proof fn lemma_number_digits_value(v: nat, n: nat)
    requires
        v < pow10(n),
    ensures
        digits_value(number_digits(v, n)) == v,
    decreases n,
{
    if n > 0 {
        let s = number_digits(v, n);
        lemma_number_digits_value(v / 10, (n - 1) as nat);
        assert(s.drop_last() =~= number_digits(v / 10, (n - 1) as nat));
        assert(digit_value(s.last()) == v % 10);
    }
}

proof fn lemma_encode_utf8_concat(a: Seq<char>, b: Seq<char>)
    ensures
        encode_utf8(a + b) == encode_utf8(a) + encode_utf8(b),
    decreases a.len(),
{
    if a.len() > 0 {
        assert((a + b).drop_first() =~= a.drop_first() + b);
        lemma_encode_utf8_concat(a.drop_first(), b);
        assert((a + b)[0] == a[0]);
    } else {
        assert(a + b =~= b);
    }
}

proof fn lemma_trim_spaces(s: Seq<char>, k: nat)
    requires
        trim_end_chars(s) == s,
    ensures
        trim_end_chars(s + Seq::new(k, |i: int| ' ')) == s,
    decreases k,
{
    if k > 0 {
        let t = s + Seq::new(k, |i: int| ' ');
        assert(t.drop_last() =~= s + Seq::new((k - 1) as nat, |i: int| ' '));
        lemma_trim_spaces(s, (k - 1) as nat);
    } else {
        assert(s + Seq::new(k, |i: int| ' ') =~= s);
    }
}

proof fn lemma_packed_field(raw: Seq<u8>, start: int, d: Seq<char>)
    requires
        all_digits(d),
        start + pack_digits(d).len() <= raw.len(),
        raw.subrange(start, start + pack_digits(d).len()) == pack_digits(d),
    ensures
        field_valid(raw, start, pack_digits(d).len() as int, d.len() as int),
        field_text(raw, start, pack_digits(d).len() as int, d.len() as int) == d,
{
    lemma_round_trip(d);
}

/// A record that encodes, and whose stock code does not end in white
/// space, parses back from its own bytes: every field comes back as it was.
pub proof fn lemma_encode_parse_round_trip(rec: &Format6Record)
    requires
        encode_error(rec) is None,
        trim_end_chars(rec.stock_code@) == rec.stock_code@,
    ensures
        record_bytes(rec).len() == RECORD_LEN,
        parse_error(record_bytes(rec)) is None,
        rec.parsed_from(record_bytes(rec)),
{
    let raw = record_bytes(rec);
    let info = number_digits(rec.info_length as nat, 4);
    let volume_total = number_digits(rec.accumulative_volume as nat, 8);
    let q = rec.real_time_quotes@[0];
    lemma_number_digits_are_digits(rec.info_length as nat, 4);
    lemma_number_digits_are_digits(rec.accumulative_volume as nat, 8);
    let stock = encode_utf8(rec.stock_code@);
    let pad = pad_spaces(stock, STOCK_CODE_LEN as nat);
    let k = (STOCK_CODE_LEN - stock.len()) as nat;
    let spaces = Seq::new(k, |i: int| ' ');
    assert(pack_digits(info).len() == 2);
    assert(pack_digits(rec.business_type@).len() == 1);
    assert(pack_digits(rec.format_code@).len() == 1);
    assert(pack_digits(rec.version@).len() == 1);
    assert(pack_digits(rec.transmission_sn@).len() == 4);
    assert(pack_digits(rec.matching_time@).len() == 6);
    assert(pack_digits(volume_total).len() == 4);
    assert(pack_digits(q.price@).len() == 5);
    assert(pack_digits(q.volume@).len() == 4);
    assert(raw.len() == RECORD_LEN);

    assert(raw.subrange(1, 3) =~= pack_digits(info));
    assert(raw.subrange(3, 4) =~= pack_digits(rec.business_type@));
    assert(raw.subrange(4, 5) =~= pack_digits(rec.format_code@));
    assert(raw.subrange(5, 6) =~= pack_digits(rec.version@));
    assert(raw.subrange(6, 10) =~= pack_digits(rec.transmission_sn@));
    assert(stock_code_bytes(raw) =~= pad);
    assert(raw.subrange(16, 22) =~= pack_digits(rec.matching_time@));
    assert(raw.subrange(25, 29) =~= pack_digits(volume_total));
    assert(raw.subrange(29, 34) =~= pack_digits(q.price@));
    assert(raw.subrange(34, 38) =~= pack_digits(q.volume@));

    lemma_packed_field(raw, 1, info);
    lemma_packed_field(raw, 3, rec.business_type@);
    lemma_packed_field(raw, 4, rec.format_code@);
    lemma_packed_field(raw, 5, rec.version@);
    lemma_packed_field(raw, 6, rec.transmission_sn@);
    lemma_packed_field(raw, 16, rec.matching_time@);
    lemma_packed_field(raw, 25, volume_total);
    lemma_packed_field(raw, 29, q.price@);
    lemma_packed_field(raw, 34, q.volume@);

    assert(pow10(4) == 10_000 && pow10(8) == 100_000_000) by {
        reveal_with_fuel(pow10, 9);
    }
    lemma_number_digits_value(rec.info_length as nat, 4);
    lemma_number_digits_value(rec.accumulative_volume as nat, 8);

    let space_bytes = Seq::new(k, |i: int| 0x20u8);
    lemma_ascii_utf8(space_bytes);
    assert(Seq::new(k, |i: int| space_bytes[i] as char) =~= spaces);
    encode_utf8_decode_utf8(spaces);
    assert(encode_utf8(spaces) == space_bytes);
    lemma_encode_utf8_concat(rec.stock_code@, spaces);
    assert(pad == encode_utf8(rec.stock_code@ + spaces));
    encode_utf8_decode_utf8(rec.stock_code@ + spaces);
    lemma_trim_spaces(rec.stock_code@, k);

    assert(rec.terminal_code@ =~= seq![raw[39], raw[40]]);
}

} // verus!
