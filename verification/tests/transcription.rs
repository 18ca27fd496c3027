//! Tests of the decoder boundary: text, hexadecimal and base64 inputs
//! transcribed into alphabet-indexed symbol streams.

use kullback::transcribe::{transcribe, TranscribeError};

/// The worked example: each character replaced by the rank of its
/// first appearance.
#[test]
fn text_transcription_worked_example() {
    let out = transcribe("abbacddabcabddacdb", "UTF8").unwrap();
    assert_eq!(out, vec![0, 1, 1, 0, 2, 3, 3, 0, 1, 2, 0, 1, 3, 3, 0, 2, 3, 1]);
}

#[test]
fn text_transcription_empty_input() {
    assert_eq!(transcribe("", "UTF8").unwrap(), Vec::<u32>::new());
}

/// Hexadecimal input is decoded to bytes before transcription: "6162"
/// is the two distinct bytes 0x61 0x62, not the four characters
/// '6' '1' '6' '2'.
#[test]
fn hex_decodes_to_bytes_before_transcription() {
    assert_eq!(transcribe("6162", "HEX").unwrap(), vec![0, 1]);
    assert_eq!(transcribe("6161", "HEX").unwrap(), vec![0, 0]);
    // The same input read as text would transcribe differently.
    assert_eq!(transcribe("6161", "UTF8").unwrap(), vec![0, 1, 0, 1]);
}

/// Both digit cases decode alike.
#[test]
fn hex_accepts_mixed_case() {
    assert_eq!(transcribe("6A6a", "HEX").unwrap(), vec![0, 0]);
    assert_eq!(transcribe("DEADBEEF", "HEX").unwrap(), transcribe("deadbeef", "HEX").unwrap());
}

/// A non-digit or an odd length is a decode failure.
#[test]
fn malformed_hex_rejected() {
    assert!(matches!(transcribe("6g", "HEX"), Err(TranscribeError::Decode(_))));
    assert!(matches!(transcribe("616", "HEX"), Err(TranscribeError::Decode(_))));
}

/// Base64 input is decoded to bytes before transcription: "YWJj" is
/// "abc", three distinct bytes, not the four distinct characters
/// 'Y' 'W' 'J' 'j'.
#[test]
fn base64_decodes_to_bytes_before_transcription() {
    assert_eq!(transcribe("YWJj", "BASE64").unwrap(), vec![0, 1, 2]);
    assert_eq!(transcribe("YWJhYg==", "BASE64").unwrap(), vec![0, 1, 0, 1]);
}

#[test]
fn malformed_base64_rejected() {
    assert!(matches!(transcribe("!!!", "BASE64"), Err(TranscribeError::Decode(_))));
}

/// Any tag but the three recognized ones fails before decoding.
#[test]
fn unknown_encoding_tag_rejected() {
    assert_eq!(transcribe("abc", "utf8"), Err(TranscribeError::InvalidEncoding));
    assert_eq!(transcribe("abc", ""), Err(TranscribeError::InvalidEncoding));
    assert_eq!(transcribe("abc", "HEX64"), Err(TranscribeError::InvalidEncoding));
}

/// Transcription codes are assigned in order of first appearance, so a
/// stream announces each new code as the next integer.
#[test]
fn codes_count_up_in_first_appearance_order() {
    assert_eq!(transcribe("zyxzzy", "UTF8").unwrap(), vec![0, 1, 2, 0, 0, 1]);
}
