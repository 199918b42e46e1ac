//! Contracts for the functions of std and of outside crates that the library
//! calls. Verus believes these contracts; they are not proved here.

use sha1::{Digest, Sha1};
use vstd::prelude::*;
use vstd::utf8::{decode_utf8, valid_utf8};

verus! {

/// The error of `String::from_utf8`, carried through as it is.
#[verifier::external_type_specification]
#[verifier::external_body]
pub struct ExFromUtf8Error(std::string::FromUtf8Error);

/// `String::from_utf8` succeeds exactly on valid UTF-8 and then holds the
/// characters that the bytes encode.
pub assume_specification[ String::from_utf8 ](vec: Vec<u8>) -> (res: Result<
    String,
    std::string::FromUtf8Error,
>)
    ensures
        res is Ok <==> valid_utf8(vec@),
        res matches Ok(s) ==> s@ == decode_utf8(vec@),
;

/// What `String::from_utf8_lossy` makes of a byte string: invalid sequences
/// become U+FFFD.
pub uninterp spec fn spec_utf8_lossy(bytes: Seq<u8>) -> Seq<char>;

/// `String::from_utf8_lossy`, as an owned `String`. The contract names the
/// result, and states what the documentation says of valid UTF-8: it is
/// decoded unchanged. What becomes of invalid sequences is left unsaid.
#[verifier::external_body]
pub fn utf8_lossy(bytes: &[u8]) -> (res: String)
    ensures
        res@ == spec_utf8_lossy(bytes@),
        valid_utf8(bytes@) ==> res@ == decode_utf8(bytes@),
{
    String::from_utf8_lossy(bytes).into_owned()
}


/// The SHA-1 hash of a byte string.
pub uninterp spec fn spec_sha1(data: Seq<u8>) -> Seq<u8>;

/// `Sha1::digest` of the sha1 crate, as a 20-byte array. The contract names
/// the hash, a function of the bytes alone; nothing more of it is stated.
#[verifier::external_body]
pub fn sha1_digest(data: &[u8]) -> (res: [u8; 20])
    ensures
        res@ == spec_sha1(data@),
{
    Sha1::digest(data).into()
}


/// What `Url::parse` makes of a string: the URL's serialization, or none
/// where the string is not a URL.
pub uninterp spec fn spec_url_parse(input: Seq<char>) -> Option<Seq<char>>;

/// The error of `Url::parse`, carried through as it is.
#[verifier::external_type_specification]
#[verifier::external_body]
pub struct ExUrlParseError(url::ParseError);

/// `Url::parse` of the url crate, the URL given as its serialization
/// (`String::from(Url)`). The contract names the outcome, a function of the
/// input alone; what it is on a given input is not stated.
#[verifier::external_body]
pub fn parse_url(input: &str) -> (res: Result<String, url::ParseError>)
    ensures
        res is Ok <==> spec_url_parse(input@) is Some,
        res matches Ok(u) ==> spec_url_parse(input@) == Some(u@),
{
    match url::Url::parse(input) {
        Ok(u) => Ok(String::from(u)),
        Err(e) => Err(e),
    }
}


/// Whether `urlencoding` leaves a byte as it is: ASCII letters and digits,
/// and `-`, `.`, `_`, `~`.
pub open spec fn url_unreserved(b: u8) -> bool {
    (48 <= b <= 57) || (65 <= b <= 90) || (97 <= b <= 122) || b == 45 || b == 46 || b == 95 || b == 126
}

/// An upper-case hexadecimal digit.
pub open spec fn hex_digit(d: u8) -> char {
    if d < 10 {
        (48 + d) as char
    } else {
        (55 + d) as char
    }
}

/// Percent-encoding as `urlencoding::encode_binary` does it: every byte but
/// the unreserved ones becomes `%` and two upper-case hex digits.
pub open spec fn percent_encoded(bytes: Seq<u8>) -> Seq<char>
    decreases bytes.len(),
{
    if bytes.len() == 0 {
        Seq::empty()
    } else {
        let b = bytes.last();
        percent_encoded(bytes.drop_last()) + if url_unreserved(b) {
            seq![b as char]
        } else {
            seq!['%', hex_digit(b >> 4u8), hex_digit(b & 15u8)]
        }
    }
}

/// `urlencoding::encode_binary` of the urlencoding crate, as an owned
/// `String`; its source encodes as `percent_encoded` says.
#[verifier::external_body]
pub fn encode_binary(bytes: &[u8]) -> (res: String)
    ensures
        res@ == percent_encoded(bytes@),
{
    urlencoding::encode_binary(bytes).into_owned()
}

} // verus!
