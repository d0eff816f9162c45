use ezcontext::codec::{
    decode_from_engine, encode_for_engine, finish_decoding, finish_encoding, u16_slice_to_u8_vec,
    utf16_to_string, DecodeOutcome, EncodeOutcome,
};
use ezcontext::error::Error;

#[test]
fn encode_writes_shift_jis_with_terminator() {
    let mut buffer = Vec::new();
    assert!(encode_for_engine("あ", &mut buffer).is_ok());
    assert_eq!(buffer, vec![0x82, 0xA0, 0x00]);

    assert!(encode_for_engine("日本語", &mut buffer).is_ok());
    assert_eq!(buffer, vec![0x93, 0xFA, 0x96, 0x7B, 0x8C, 0xEA, 0x00]);

    assert!(encode_for_engine("abc", &mut buffer).is_ok());
    assert_eq!(buffer, vec![b'a', b'b', b'c', 0x00]);

    assert!(encode_for_engine("", &mut buffer).is_ok());
    assert_eq!(buffer, vec![0x00]);
}

#[test]
fn encode_replaces_what_the_buffer_held() {
    let mut buffer = vec![1, 2, 3, 4, 5, 6, 7, 8, 9];
    assert!(encode_for_engine("こんにちは", &mut buffer).is_ok());
    assert_eq!(buffer, vec![0x82, 0xB1, 0x82, 0xF1, 0x82, 0xC9, 0x82, 0xBF, 0x82, 0xCD, 0x00]);
}

#[test]
fn encode_refuses_unmappable_character_and_empties_buffer() {
    let mut buffer = vec![9, 9, 9];
    assert!(matches!(encode_for_engine("あ가あ", &mut buffer), Err(Error::EncodingError)));
    assert!(buffer.is_empty());
    assert!(matches!(encode_for_engine("😀", &mut buffer), Err(Error::EncodingError)));
    assert!(buffer.is_empty());
}

#[test]
fn encode_long_text() {
    let text = "日本語のテキスト".repeat(2000);
    let mut buffer = Vec::new();
    assert!(encode_for_engine(&text, &mut buffer).is_ok());
    assert_eq!(buffer.len(), 8 * 2 * 2000 + 1);
    assert_eq!(buffer[buffer.len() - 1], 0);
    assert_eq!(&buffer[..2], &[0x93, 0xFA]);
}

#[test]
fn finish_encoding_by_outcome() {
    let mut buffer = vec![1, 2, 3];
    assert!(finish_encoding(EncodeOutcome::Complete, 2, &mut buffer).is_ok());
    assert_eq!(buffer, vec![1, 2, 0]);

    let mut buffer = vec![1, 2];
    assert!(finish_encoding(EncodeOutcome::Complete, 0, &mut buffer).is_ok());
    assert_eq!(buffer, vec![0]);

    let mut buffer = vec![1, 2];
    assert!(matches!(
        finish_encoding(EncodeOutcome::Complete, 3, &mut buffer),
        Err(Error::EncodingError)
    ));
    assert!(buffer.is_empty());

    let mut buffer = vec![1, 2];
    assert!(matches!(
        finish_encoding(EncodeOutcome::OutputFull, 1, &mut buffer),
        Err(Error::EncodingError)
    ));
    assert!(buffer.is_empty());

    let mut buffer = vec![1, 2];
    assert!(matches!(
        finish_encoding(EncodeOutcome::Unmappable, 1, &mut buffer),
        Err(Error::EncodingError)
    ));
    assert!(buffer.is_empty());
}

#[test]
fn decode_reads_euc_kr() {
    assert_eq!(decode_from_engine(&[0xB0, 0xA1]).unwrap(), "가");
    assert_eq!(decode_from_engine(&[0xC0, 0xCF, 0xBA, 0xBB, 0xBE, 0xEE]).unwrap(), "일본어");
    assert_eq!(decode_from_engine(b"plain").unwrap(), "plain");
    assert_eq!(decode_from_engine(&[]).unwrap(), "");
    assert_eq!(decode_from_engine(&[b'a', 0xBE, 0xC8, 0xB3, 0xE7, b'!']).unwrap(), "a안녕!");
}

#[test]
fn decode_refuses_malformed_bytes() {
    assert!(matches!(decode_from_engine(&[0xFF]), Err(Error::EncodingError)));
    assert!(matches!(decode_from_engine(&[0xB0]), Err(Error::EncodingError)));
    assert!(matches!(decode_from_engine(&[b'a', 0xB0, 0x20]), Err(Error::EncodingError)));
}

#[test]
fn decode_long_reply() {
    let mut bytes = Vec::new();
    for _ in 0..5000 {
        bytes.extend_from_slice(&[0xBE, 0xC8, 0xB3, 0xE7]);
    }
    assert_eq!(decode_from_engine(&bytes).unwrap(), "안녕".repeat(5000));
}

#[test]
fn finish_decoding_by_outcome() {
    let bytes = "text and more".as_bytes().to_vec();
    assert_eq!(finish_decoding(DecodeOutcome::Complete, 4, bytes.clone()).unwrap(), "text");
    assert_eq!(finish_decoding(DecodeOutcome::Complete, 0, bytes.clone()).unwrap(), "");
    assert!(matches!(
        finish_decoding(DecodeOutcome::Complete, 14, bytes.clone()),
        Err(Error::EncodingError)
    ));
    assert!(matches!(
        finish_decoding(DecodeOutcome::Complete, 1, vec![0xE3, 0x81, 0x82]),
        Err(Error::EncodingError)
    ));
    assert_eq!(finish_decoding(DecodeOutcome::Complete, 3, vec![0xE3, 0x81, 0x82]).unwrap(), "あ");
    assert!(matches!(
        finish_decoding(DecodeOutcome::OutputFull, 4, bytes.clone()),
        Err(Error::EncodingError)
    ));
    assert!(matches!(
        finish_decoding(DecodeOutcome::Malformed, 4, bytes),
        Err(Error::EncodingError)
    ));
}

#[test]
fn wide_units_to_bytes() {
    assert_eq!(u16_slice_to_u8_vec(&[]), Vec::<u8>::new());
    assert_eq!(u16_slice_to_u8_vec(&[0x0061]), vec![0x61, 0x00]);
    assert_eq!(u16_slice_to_u8_vec(&[0x3042, 0xFFFE, 0x0100]), vec![0x42, 0x30, 0xFE, 0xFF, 0x00, 0x01]);
}

#[test]
fn wide_text_to_string() {
    assert_eq!(utf16_to_string(&[]), "");
    assert_eq!(utf16_to_string(&[0x0061, 0x3042, 0x65E5]), "aあ日");
    let wide: Vec<u16> = "xfooy日本語z😀".encode_utf16().collect();
    assert_eq!(utf16_to_string(&wide), "xfooy日本語z😀");
}

#[test]
fn wide_text_with_broken_surrogate() {
    assert_eq!(utf16_to_string(&[0x0061, 0xD800, 0x0062]), "a\u{FFFD}b");
    assert_eq!(utf16_to_string(&[0xDC00]), "\u{FFFD}");
}
