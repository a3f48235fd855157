//! What the library takes from elsewhere: conversions, calendar, hash and hexadecimal text.
use vstd::prelude::*;
use vstd::utf8::{decode_utf8, valid_utf8};
use crate::text::hex_bytes;

verus! {

/// A path of the file system. The library carries paths and looks at none.
#[verifier::external_type_specification]
#[verifier::external_body]
pub struct ExPathBuf(std::path::PathBuf);

/// A time stamp of the file system. The library only carries it.
#[verifier::external_type_specification]
#[verifier::external_body]
pub struct ExSystemTime(std::time::SystemTime);

/// `PathBuf::clone` gives the same path again.
pub assume_specification[ <std::path::PathBuf as Clone>::clone ](
    p: &std::path::PathBuf,
) -> (r: std::path::PathBuf)
    ensures
        r == *p,
;

/// What `String::from_utf8_lossy` makes of some bytes.
pub uninterp spec fn utf8_lossy(bytes: Seq<u8>) -> Seq<char>;

/// Calls `String::from_utf8_lossy`: the text is a function of the bytes, and where these are
/// valid UTF-8 it is the text that they encode. What stands for invalid bytes is not said.
#[verifier::external_body]
pub(crate) fn text_from_utf8_lossy(bytes: &[u8]) -> (r: String)
    ensures
        r@ == utf8_lossy(bytes@),
        valid_utf8(bytes@) ==> r@ == decode_utf8(bytes@),
{
    String::from_utf8_lossy(bytes).into_owned()
}

/// What `chrono` writes for the UTC date and time `secs` seconds after the start of 1970, in
/// the form `form`.
pub uninterp spec fn utc_text(secs: i64, form: Seq<char>) -> Seq<char>;

/// The seconds that `chrono` can turn into a date: those of the years -262143 to 262142.
pub open spec fn has_utc_text(secs: int) -> bool {
    -8_334_601_228_800 <= secs <= 8_210_266_876_799
}

/// Calls `chrono::DateTime::from_timestamp` and `DateTime::format`: there is a date exactly for
/// the seconds in the range of `chrono`, and its text is a function of the seconds and the form.
/// The form is the one that the library uses; `chrono` fails on some others.
#[verifier::external_body]
pub(crate) fn format_utc(secs: i64, form: &str) -> (r: Option<String>)
    requires
        form@ == "%Y-%m-%d %H:%M:%S"@,
    ensures
        r is Some <==> has_utc_text(secs as int),
        r matches Some(s) ==> s@ == utc_text(secs, form@),
{
    match chrono::DateTime::from_timestamp(secs, 0) {
        Some(at) => Some(at.format(form).to_string()),
        None => None,
    }
}

/// The SHA-256 digest of some bytes, as the `sha2` crate computes it.
pub uninterp spec fn sha256_digest(data: Seq<u8>) -> Seq<u8>;

/// Calls `sha2::Sha256::digest`: the digest is a function of the bytes and has 32 bytes.
#[verifier::external_body]
pub(crate) fn sha256(data: &[u8]) -> (r: Vec<u8>)
    ensures
        r@ == sha256_digest(data@),
        r@.len() == 32,
{
    <sha2::Sha256 as sha2::Digest>::digest(data).to_vec()
}

/// Calls `hex::encode`: two lower-case hexadecimal digits for each byte, in order.
#[verifier::external_body]
pub(crate) fn hex_encode(data: &[u8]) -> (r: String)
    ensures
        r@ == hex_bytes(data@, 0, data@.len() as int, false),
{
    hex::encode(data)
}

} // verus!
