use format6::error::CodecError;
use format6::record::{parse_format6, Format6Record, RealTimeQuote, RECORD_LEN};
use format6::writer::encode_format6;

fn sample_record() -> Vec<u8> {
    let mut raw = Vec::new();
    raw.push(0x1B); // ESC

    // HEADER
    raw.extend(&[0x00, 0x47]); // InfoLength = "0047"
    raw.push(0x01); // Business Type "01"
    raw.push(0x06); // Format Code "06"
    raw.push(0x04); // Version "04"
    raw.extend(&[0x00, 0x00, 0x00, 0x01]); // S/N "00000001"

    // BODY
    raw.extend(b"2330  "); // StockCode
    raw.extend(&[0x09, 0x30, 0x15, 0x12, 0x34, 0x56]); // Matching Time
    raw.push(0x89); // Disclosed Item Remarks
    raw.push(0x00); // Rise/Fall Remarks
    raw.push(0x80); // Status Remarks
    raw.extend(&[0x00, 0x00, 0x12, 0x34]); // Accum Volume
    raw.extend(&[0x00, 0x12, 0x34, 0x56, 0x70]); // Price Field
    raw.extend(&[0x00, 0x00, 0x01, 0x00]); // Volume Field

    raw.push(0x5A); // Checksum
    raw.extend(&[0x0D, 0x0A]); // Terminal Code
    raw
}

#[test]
fn test_parse_format6() {
    let raw = sample_record();

    let rec = parse_format6(&raw).unwrap();

    assert_eq!(rec.esc_code, 0x1B);
    assert_eq!(rec.info_length, 47);
    assert_eq!(&rec.business_type, "01");
    assert_eq!(&rec.format_code, "06");
    assert_eq!(&rec.version, "04");
    assert_eq!(&rec.transmission_sn, "00000001");
    assert_eq!(&rec.stock_code, "2330");
    assert_eq!(&rec.matching_time, "093015123456");
    assert_eq!(rec.disclosed_item_remarks, 0x89);
    assert_eq!(rec.rise_fall_remarks, 0x00);
    assert_eq!(rec.status_remarks, 0x80);
    assert_eq!(rec.accumulative_volume, 1234);
    assert_eq!(rec.real_time_quotes.len(), 1);
    assert_eq!(&rec.real_time_quotes[0].price, "001234567");
    assert_eq!(&rec.real_time_quotes[0].volume, "00000100");
    assert_eq!(rec.checksum, 0x5A);
    assert_eq!(rec.terminal_code, [0x0D, 0x0A]);
}

#[test]
fn sample_record_fills_the_layout() {
    assert_eq!(sample_record().len(), RECORD_LEN);
}

#[test]
fn short_buffers_are_truncated() {
    let raw = sample_record();
    for len in 0..RECORD_LEN {
        assert_eq!(parse_format6(&raw[..len]), Err(CodecError::TruncatedInput));
    }
}

#[test]
fn trailing_bytes_are_ignored() {
    let mut raw = sample_record();
    raw.extend(&[0xFF, 0xFF]);
    assert_eq!(parse_format6(&raw), parse_format6(&sample_record()));
}

fn with_stock_code(code: &[u8; 6]) -> Vec<u8> {
    let mut raw = sample_record();
    raw[10..16].copy_from_slice(code);
    raw
}

#[test]
fn stock_code_keeps_internal_spaces() {
    let rec = parse_format6(&with_stock_code(b"AB   C")).unwrap();
    assert_eq!(rec.stock_code, "AB   C");
    let rec = parse_format6(&with_stock_code(b"AB C  ")).unwrap();
    assert_eq!(rec.stock_code, "AB C");
    let rec = parse_format6(&with_stock_code(b"      ")).unwrap();
    assert_eq!(rec.stock_code, "");
    let rec = parse_format6(&with_stock_code(b"12\t\n  ")).unwrap();
    assert_eq!(rec.stock_code, "12");
}

#[test]
fn stock_code_not_utf8_is_encoding_error() {
    assert_eq!(parse_format6(&with_stock_code(b"23\xFF0  ")), Err(CodecError::Encoding));
}

#[test]
fn stock_code_multibyte_utf8() {
    let rec = parse_format6(&with_stock_code(b"\xE5\x8F\xB0 1 ")).unwrap();
    assert_eq!(rec.stock_code, "\u{53F0} 1");
}

#[test]
fn invalid_header_digit_comes_before_encoding_error() {
    let mut raw = with_stock_code(b"23\xFF0  ");
    raw[3] = 0x0C;
    assert_eq!(parse_format6(&raw), Err(CodecError::InvalidDigit));
}

#[test]
fn invalid_body_digit_is_reported() {
    let mut raw = sample_record();
    raw[26] = 0xE0;
    assert_eq!(parse_format6(&raw), Err(CodecError::InvalidDigit));
}

#[test]
fn encoding_error_comes_before_body_digit_error() {
    let mut raw = with_stock_code(b"23\xFF0  ");
    raw[26] = 0xE0;
    assert_eq!(parse_format6(&raw), Err(CodecError::Encoding));
}

#[test]
fn price_padding_nibble_is_not_examined() {
    let mut raw = sample_record();
    raw[33] = 0x7F;
    let rec = parse_format6(&raw).unwrap();
    assert_eq!(rec.real_time_quotes[0].price, "001234567");
    raw[33] = 0xA0;
    assert_eq!(parse_format6(&raw), Err(CodecError::InvalidDigit));
}

#[test]
fn encode_then_parse_gives_the_record_back() {
    let rec = parse_format6(&sample_record()).unwrap();
    let bytes = encode_format6(&rec).unwrap();
    let mut expected = sample_record();
    expected[33] = 0x7F;
    assert_eq!(bytes, expected);
    assert_eq!(parse_format6(&bytes), Ok(rec));
}

fn record() -> Format6Record {
    Format6Record {
        esc_code: 0x1B,
        info_length: 9999,
        business_type: "01".to_string(),
        format_code: "06".to_string(),
        version: "04".to_string(),
        transmission_sn: "12345678".to_string(),
        stock_code: "0050".to_string(),
        matching_time: "235959999999".to_string(),
        disclosed_item_remarks: 1,
        rise_fall_remarks: 2,
        status_remarks: 3,
        accumulative_volume: 99_999_999,
        real_time_quotes: vec![RealTimeQuote {
            price: "000010000".to_string(),
            volume: "00000001".to_string(),
        }],
        checksum: 0x77,
        terminal_code: [0x0D, 0x0A],
    }
}

#[test]
fn encode_writes_exact_bytes() {
    let bytes = encode_format6(&record()).unwrap();
    let expected: Vec<u8> = vec![
        0x1B, 0x99, 0x99, 0x01, 0x06, 0x04, 0x12, 0x34, 0x56, 0x78, b'0', b'0', b'5', b'0', b' ',
        b' ', 0x23, 0x59, 0x59, 0x99, 0x99, 0x99, 1, 2, 3, 0x99, 0x99, 0x99, 0x99, 0x00, 0x00,
        0x10, 0x00, 0x0F, 0x00, 0x00, 0x00, 0x01, 0x77, 0x0D, 0x0A,
    ];
    assert_eq!(bytes, expected);
    assert_eq!(parse_format6(&bytes), Ok(record()));
}

#[test]
fn encode_rejects_oversized_fields() {
    let mut rec = record();
    rec.info_length = 10_000;
    assert_eq!(encode_format6(&rec), Err(CodecError::FieldTooLong));

    let mut rec = record();
    rec.version = "4".to_string();
    assert_eq!(encode_format6(&rec), Err(CodecError::FieldTooLong));

    let mut rec = record();
    rec.stock_code = "1234567".to_string();
    assert_eq!(encode_format6(&rec), Err(CodecError::FieldTooLong));

    let mut rec = record();
    rec.accumulative_volume = 100_000_000;
    assert_eq!(encode_format6(&rec), Err(CodecError::FieldTooLong));

    let mut rec = record();
    rec.real_time_quotes.clear();
    assert_eq!(encode_format6(&rec), Err(CodecError::FieldTooLong));
}

#[test]
fn encode_rejects_non_digits() {
    let mut rec = record();
    rec.matching_time = "23595999999x".to_string();
    assert_eq!(encode_format6(&rec), Err(CodecError::InvalidDigit));

    let mut rec = record();
    rec.real_time_quotes[0].volume = "0000000-".to_string();
    assert_eq!(encode_format6(&rec), Err(CodecError::InvalidDigit));
}
