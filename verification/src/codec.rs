//! The primitives that decoding borrows from elsewhere: base64, gzip, UTF-8
//! validation and Unicode lower-casing. Their contracts are taken on trust;
//! everything built on them is proved.

use std::io::Read;
use vstd::prelude::*;
use vstd::utf8::{decode_utf8, valid_utf8};

verus! {

/// The bytes that a text stands for in base64 with the standard alphabet,
/// or `None` where the text is not such an encoding.
pub uninterp spec fn base64_decoding(text: Seq<char>) -> Option<Seq<u8>>;

/// The content of the gzip member that `compressed` begins with, or `None`
/// where the bytes do not begin with a whole and intact gzip member.
pub uninterp spec fn gzip_inflation(compressed: Seq<u8>) -> Option<Seq<u8>>;

/// The text with every character replaced by its Unicode lower-case form.
pub uninterp spec fn lowercase_of(text: Seq<char>) -> Seq<char>;

/// The error of `base64::decode`, carried through unread.
#[verifier::external_type_specification]
#[verifier::external_body]
pub struct ExBase64DecodeError(base64::DecodeError);

/// The error of `std::io::Read::read_to_end`, carried through unread.
#[verifier::external_type_specification]
#[verifier::external_body]
pub struct ExIoError(std::io::Error);

/// The error of `String::from_utf8`, carried through unread.
#[verifier::external_type_specification]
#[verifier::external_body]
pub struct ExFromUtf8Error(std::string::FromUtf8Error);

/// Calls `base64::decode`. Trusted: the outcome depends on the text alone,
/// and is the decoded bytes on success.
#[verifier::external_body]
pub(crate) fn decode_base64(input: &str) -> (decoded: Result<Vec<u8>, base64::DecodeError>)
    ensures
        match decoded {
            Ok(bytes) => base64_decoding(input@) == Some(bytes@),
            Err(_) => base64_decoding(input@) is None,
        },
{
    base64::decode(input)
}

/// Reads a `flate2::read::GzDecoder` over the bytes to its end. Trusted: the
/// outcome depends on the bytes alone, and is everything the decoder yields
/// unless it reports an error.
#[verifier::external_body]
pub(crate) fn inflate_gzip(compressed: &Vec<u8>) -> (inflated: Result<Vec<u8>, std::io::Error>)
    ensures
        match inflated {
            Ok(bytes) => gzip_inflation(compressed@) == Some(bytes@),
            Err(_) => gzip_inflation(compressed@) is None,
        },
{
    let mut decoder = flate2::read::GzDecoder::new(compressed.as_slice());
    let mut inflated = Vec::new();
    match decoder.read_to_end(&mut inflated) {
        Ok(_) => Ok(inflated),
        Err(error) => Err(error),
    }
}

/// Calls `String::from_utf8`. Trusted: the call succeeds exactly on
/// well-formed UTF-8, and the string then holds the characters that the
/// bytes encode.
#[verifier::external_body]
pub(crate) fn text_from_utf8(bytes: Vec<u8>) -> (text: Result<
    String,
    std::string::FromUtf8Error,
>)
    ensures
        text is Ok <==> valid_utf8(bytes@),
        text matches Ok(s) ==> s@ == decode_utf8(bytes@),
{
    String::from_utf8(bytes)
}

/// Calls `str::to_lowercase`. Trusted: the result depends on the text alone.
#[verifier::external_body]
pub(crate) fn to_lowercase(text: &str) -> (lowered: String)
    ensures
        lowered@ == lowercase_of(text@),
{
    text.to_lowercase()
}

} // verus!
