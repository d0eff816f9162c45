//! Transcoding between Unicode text, the wide text of the caller, and the
//! legacy byte encodings of the engine: Shift_JIS on the way in, EUC-KR on the
//! way out.

use crate::error::Error;
use crate::utf8::lemma_encode_injective;
use vstd::prelude::*;
use vstd::utf8::{encode_utf8, encode_utf8_valid_utf8, valid_utf8};

verus! {

/// `std::string::FromUtf8Error`: what `String::from_utf8` returns for bytes
/// that it refuses. Nothing is read from it.
#[verifier::external_type_specification]
#[verifier::external_body]
pub struct ExFromUtf8Error(std::string::FromUtf8Error);

/// `String::from_utf8` makes a text of bytes that are valid UTF-8, and
/// refuses any others. The bytes of the text are the bytes given.
pub assume_specification[ String::from_utf8 ](vec: Vec<u8>) -> (made: Result<
    String,
    std::string::FromUtf8Error,
>)
    ensures
        made is Ok <==> valid_utf8(vec@),
        made matches Ok(text) ==> encode_utf8(text@) == vec@,
;

/// The Shift_JIS bytes of `text` as `encoding_rs` writes them, or `None` where
/// a character of `text` has no place in Shift_JIS.
pub uninterp spec fn shift_jis_bytes(text: Seq<char>) -> Option<Seq<u8>>;

/// The text that `encoding_rs` reads from EUC-KR `bytes`, or `None` where the
/// bytes are malformed.
pub uninterp spec fn euc_kr_text(bytes: Seq<u8>) -> Option<Seq<char>>;

/// The text that `encoding_rs` reads from UTF-16LE `bytes`, with U+FFFD in
/// place of what is malformed.
pub uninterp spec fn utf16le_text(bytes: Seq<u8>) -> Seq<char>;

/// The room that suffices for the Shift_JIS bytes of a text of `byte_length`
/// bytes of UTF-8.
pub open spec fn shift_jis_room(byte_length: int) -> int {
    byte_length + 1
}

/// The room that suffices for the UTF-8 bytes of the text of `byte_length`
/// bytes of EUC-KR.
pub open spec fn euc_kr_room(byte_length: int) -> int {
    2 + byte_length + (byte_length + 1) / 2
}

/// `text` can be handed to the engine: each of its characters has a place in
/// Shift_JIS, and the room for its bytes can be counted.
pub open spec fn encodable(text: Seq<char>) -> bool {
    shift_jis_bytes(text) is Some && shift_jis_room(encode_utf8(text).len() as int) <= usize::MAX
}

/// `bytes` can be read as the engine's reply: they are well-formed EUC-KR, and
/// the room for their text can be counted.
pub open spec fn readable(bytes: Seq<u8>) -> bool {
    euc_kr_text(bytes) is Some && euc_kr_room(bytes.len() as int) <= usize::MAX
}

/// How an attempt to encode a text ended.
#[derive(Clone, Copy, Debug, PartialEq, Eq, Structural)]
pub enum EncodeOutcome {
    /// The whole text was written.
    Complete,
    /// The output had no room left.
    OutputFull,
    /// A character cannot be written in the encoding.
    Unmappable,
}

/// How an attempt to decode bytes ended.
#[derive(Clone, Copy, Debug, PartialEq, Eq, Structural)]
pub enum DecodeOutcome {
    /// All bytes were read.
    Complete,
    /// The output had no room left.
    OutputFull,
    /// The bytes hold a sequence that is no character of the encoding.
    Malformed,
}

/// `Encoder::max_buffer_length_from_utf8_without_replacement` on a new
/// Shift_JIS encoder: the room that encoding `byte_length` bytes of UTF-8
/// needs at most, one byte more than `byte_length`, or `None` where that
/// number is beyond `usize`.
#[verifier::external_body]
fn shift_jis_max_len(byte_length: usize) -> (room: Option<usize>)
    ensures
        room is Some <==> shift_jis_room(byte_length as int) <= usize::MAX,
        room matches Some(n) ==> n == shift_jis_room(byte_length as int),
{
    let encoder = encoding_rs::SHIFT_JIS.new_encoder();
    encoder.max_buffer_length_from_utf8_without_replacement(byte_length)
}

/// `Encoder::encode_from_utf8_without_replacement` on a new Shift_JIS encoder,
/// with all of the input at hand. It writes into `dst`, which is not empty,
/// from its start and returns how it ended and how many bytes it wrote. Where it reports that
/// the input is exhausted, what it wrote are the Shift_JIS bytes of `text`;
/// where it reports an unmappable character, `text` has no Shift_JIS bytes.
/// It does not report a full output where `dst` has the room that
/// `max_buffer_length_from_utf8_without_replacement` gives for `text`.
#[verifier::external_body]
fn shift_jis_encode(text: &str, dst: &mut [u8]) -> (done: (EncodeOutcome, usize))
    requires
        old(dst)@.len() > 0,
    ensures
        final(dst)@.len() == old(dst)@.len(),
        done.1 <= old(dst)@.len(),
        done.0 == EncodeOutcome::Complete ==> shift_jis_bytes(text@) == Some(
            final(dst)@.subrange(0, done.1 as int),
        ),
        done.0 == EncodeOutcome::Unmappable ==> shift_jis_bytes(text@) is None,
        done.0 == EncodeOutcome::OutputFull ==> old(dst)@.len() < shift_jis_room(
            encode_utf8(text@).len() as int,
        ),
{
    let mut encoder = encoding_rs::SHIFT_JIS.new_encoder();
    let (result, _read, written) = encoder.encode_from_utf8_without_replacement(text, dst, true);
    let outcome = match result {
        encoding_rs::EncoderResult::InputEmpty => EncodeOutcome::Complete,
        encoding_rs::EncoderResult::OutputFull => EncodeOutcome::OutputFull,
        encoding_rs::EncoderResult::Unmappable(_) => EncodeOutcome::Unmappable,
    };
    (outcome, written)
}

/// `Decoder::max_utf8_buffer_length_without_replacement` on a new EUC-KR
/// decoder: the room that decoding `byte_length` bytes needs at most, or
/// `None` where that number is beyond `usize`.
#[verifier::external_body]
fn euc_kr_max_len(byte_length: usize) -> (room: Option<usize>)
    ensures
        room is Some <==> euc_kr_room(byte_length as int) <= usize::MAX,
        room matches Some(n) ==> n == euc_kr_room(byte_length as int),
{
    let decoder = encoding_rs::EUC_KR.new_decoder_without_bom_handling();
    decoder.max_utf8_buffer_length_without_replacement(byte_length)
}

/// `Decoder::decode_to_utf8_without_replacement` on a new EUC-KR decoder, with
/// all of the input at hand. It writes into `dst` from its start, which must
/// have room for four bytes at least, and returns how it ended and how many
/// bytes it wrote. Where it reports that the input is exhausted, what it wrote
/// is the text of `bytes` in UTF-8; where it reports a malformed sequence,
/// `bytes` has no text. It does not report a full output where `dst` has the
/// room that `max_utf8_buffer_length_without_replacement` gives for `bytes`.
#[verifier::external_body]
fn euc_kr_decode(bytes: &[u8], dst: &mut [u8]) -> (done: (DecodeOutcome, usize))
    requires
        old(dst)@.len() >= 4,
    ensures
        final(dst)@.len() == old(dst)@.len(),
        done.1 <= old(dst)@.len(),
        done.0 == DecodeOutcome::Complete ==> euc_kr_text(bytes@) is Some && final(dst)@.subrange(
            0,
            done.1 as int,
        ) == encode_utf8(euc_kr_text(bytes@)->0),
        done.0 == DecodeOutcome::Malformed ==> euc_kr_text(bytes@) is None,
        done.0 == DecodeOutcome::OutputFull ==> old(dst)@.len() < euc_kr_room(bytes@.len() as int),
{
    let mut decoder = encoding_rs::EUC_KR.new_decoder_without_bom_handling();
    let (result, _read, written) = decoder.decode_to_utf8_without_replacement(bytes, dst, true);
    let outcome = match result {
        encoding_rs::DecoderResult::InputEmpty => DecodeOutcome::Complete,
        encoding_rs::DecoderResult::OutputFull => DecodeOutcome::OutputFull,
        encoding_rs::DecoderResult::Malformed(_, _) => DecodeOutcome::Malformed,
    };
    (outcome, written)
}

/// `Encoding::decode_without_bom_handling` on UTF-16LE: the text of `bytes`.
/// The outside function sizes its output from the length of the input and
/// fails where that size is beyond what a text can hold.
#[verifier::external_body]
fn utf16le_decode(bytes: &[u8]) -> (text: String)
    requires
        3 * bytes@.len() + 4 <= isize::MAX,
    ensures
        text@ == utf16le_text(bytes@),
{
    encoding_rs::UTF_16LE.decode_without_bom_handling(bytes).0.into_owned()
}

/// Closes an attempt to encode into `buffer`, of which `written` bytes were
/// written. A complete encoding is cut to what was written and gets its
/// terminating zero byte. After any other outcome the buffer is emptied, so
/// that nothing of a failed attempt is left in it.
pub fn finish_encoding(outcome: EncodeOutcome, written: usize, buffer: &mut Vec<u8>) -> (closed:
    Result<(), Error>)
    ensures
        closed is Ok <==> outcome == EncodeOutcome::Complete && written <= old(buffer)@.len(),
        closed is Ok ==> final(buffer)@ == old(buffer)@.subrange(0, written as int).push(0u8),
        closed is Err ==> closed == Err::<(), Error>(Error::EncodingError)
            && final(buffer)@.len() == 0,
{
    if written <= buffer.len() {
        match outcome {
            EncodeOutcome::Complete => {
                buffer.truncate(written);
                buffer.push(0);
                return Ok(());
            },
            _ => {},
        }
    }
    buffer.clear();
    Err(Error::EncodingError)
}

/// Writes into `buffer`, in place of what it held, the Shift_JIS bytes of
/// `text` and a terminating zero byte. No character is replaced by a
/// substitute: a text with a character that Shift_JIS lacks is refused, and
/// the buffer is then left empty.
pub fn encode_for_engine(text: &str, buffer: &mut Vec<u8>) -> (encoded: Result<(), Error>)
    ensures
        encoded is Ok <==> encodable(text@),
        encoded is Ok ==> final(buffer)@ == shift_jis_bytes(text@)->0.push(0u8),
        encoded is Err ==> encoded == Err::<(), Error>(Error::EncodingError)
            && final(buffer)@.len() == 0,
{
    buffer.clear();
    match shift_jis_max_len(text.as_bytes().len()) {
        None => Err(Error::EncodingError),
        Some(room) => {
            buffer.resize(room, 0);
            let (outcome, written) = shift_jis_encode(text, buffer.as_mut_slice());
            finish_encoding(outcome, written, buffer)
        },
    }
}

/// Closes an attempt to decode into `bytes`, of which `written` bytes were
/// written: only a complete decoding counts, and what was written has to be
/// UTF-8.
pub fn finish_decoding(outcome: DecodeOutcome, written: usize, bytes: Vec<u8>) -> (closed: Result<
    String,
    Error,
>)
    ensures
        closed is Ok <==> outcome == DecodeOutcome::Complete && written <= bytes@.len()
            && valid_utf8(bytes@.subrange(0, written as int)),
        closed matches Ok(text) ==> encode_utf8(text@) == bytes@.subrange(0, written as int),
        closed matches Err(e) ==> e == Error::EncodingError,
{
    if written <= bytes.len() {
        match outcome {
            DecodeOutcome::Complete => {
                let mut bytes = bytes;
                bytes.truncate(written);
                return match String::from_utf8(bytes) {
                    Ok(text) => Ok(text),
                    Err(_) => Err(Error::EncodingError),
                };
            },
            _ => {},
        }
    }
    Err(Error::EncodingError)
}

/// Reads the EUC-KR bytes that the engine returned. Nothing is put in place
/// of a malformed sequence: bytes that hold one are refused.
pub fn decode_from_engine(bytes: &[u8]) -> (decoded: Result<String, Error>)
    ensures
        decoded is Ok <==> readable(bytes@),
        decoded matches Ok(text) ==> euc_kr_text(bytes@) == Some(text@),
        decoded matches Err(e) ==> e == Error::EncodingError,
{
    match euc_kr_max_len(bytes.len()) {
        None => Err(Error::EncodingError),
        Some(room) => {
            let size = if room < 4 {
                4
            } else {
                room
            };
            let mut out: Vec<u8> = Vec::new();
            out.resize(size, 0);
            let (outcome, written) = euc_kr_decode(bytes, out.as_mut_slice());
            proof {
                if outcome == DecodeOutcome::Complete {
                    let text = euc_kr_text(bytes@)->0;
                    encode_utf8_valid_utf8(text);
                }
            }
            let decoded = finish_decoding(outcome, written, out);
            proof {
                if decoded is Ok {
                    lemma_encode_injective(decoded->Ok_0@, euc_kr_text(bytes@)->0);
                }
            }
            decoded
        },
    }
}

/// The bytes of wide text in little-endian order: for each unit its low byte,
/// then its high byte.
pub open spec fn le_bytes(units: Seq<u16>) -> Seq<u8>
    decreases units.len(),
{
    if units.len() == 0 {
        Seq::empty()
    } else {
        le_bytes(units.drop_last()).push((units.last() & 0xff) as u8).push(
            (units.last() >> 8) as u8,
        )
    }
}

/// Writes out the units of wide text as bytes, low byte first.
pub fn u16_slice_to_u8_vec(units: &[u16]) -> (bytes: Vec<u8>)
    ensures
        bytes@ == le_bytes(units@),
        bytes@.len() == 2 * units@.len(),
{
    let mut bytes: Vec<u8> = Vec::new();
    let mut i: usize = 0;
    assert(units@.subrange(0, 0) == Seq::<u16>::empty());
    while i < units.len()
        invariant
            i <= units@.len(),
            bytes@ == le_bytes(units@.subrange(0, i as int)),
            bytes@.len() == 2 * i,
        decreases units@.len() - i,
    {
        let unit = units[i];
        let low = (unit & 0xff) as u8;
        let high = (unit >> 8) as u8;
        bytes.push(low);
        bytes.push(high);
        proof {
            let upto = units@.subrange(0, i + 1);
            assert(upto.drop_last() == units@.subrange(0, i as int));
            assert(upto.last() == unit);
        }
        i += 1;
    }
    assert(units@.subrange(0, i as int) == units@);
    bytes
}

/// The Unicode text of the caller's wide text. A unit that is half of a
/// broken surrogate pair becomes U+FFFD.
pub fn utf16_to_string(units: &[u16]) -> (text: String)
    requires
        6 * units@.len() + 4 <= isize::MAX,
    ensures
        text@ == utf16le_text(le_bytes(units@)),
{
    let bytes = u16_slice_to_u8_vec(units);
    utf16le_decode(bytes.as_slice())
}

} // verus!
