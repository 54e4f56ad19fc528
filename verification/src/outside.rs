//! What the library takes from other crates and, where `vstd` is silent, from
//! std. Each item states what its callers rely on and nobody proves here.
use base64::Engine;
use sha1::Digest;
use std::io::Read;
use vstd::prelude::*;
use crate::numerals;
use crate::text;

verus! {

// ---------------------------------------------------------------------------
// Encodings
// ---------------------------------------------------------------------------

#[verifier::external_type_specification]
#[verifier::external_body]
pub struct ExDecodeError(base64::DecodeError);

/// What `base64::engine::general_purpose::STANDARD` decodes a text to; `None`
/// where it refuses the text.
pub uninterp spec fn base64_decoded(text: Seq<char>) -> Option<Seq<u8>>;

/// `Engine::decode` of base64 with the engine `STANDARD`: the outcome depends
/// on the text alone and is called `base64_decoded`.
#[verifier::external_body]
pub(crate) fn base64_decode(text: &str) -> (result: Result<Vec<u8>, base64::DecodeError>)
    ensures
        match result {
            Ok(bytes) => base64_decoded(text@) == Some(bytes@),
            Err(_) => base64_decoded(text@) is None,
        },
{
    base64::engine::general_purpose::STANDARD.decode(text)
}

/// `hex::encode`: two small hexadecimal digits for each byte, in order.
#[verifier::external_body]
pub(crate) fn hex_encode(data: &[u8]) -> (digits: String)
    ensures
        digits@ == numerals::hex(data@),
{
    hex::encode(data)
}

// ---------------------------------------------------------------------------
// Compression and digests
// ---------------------------------------------------------------------------

#[verifier::external_type_specification]
#[verifier::external_body]
pub struct ExIoError(std::io::Error);

/// The words of an error that carries its own: what its `Display` writes. An
/// error of the operating system has none here, since its words depend on the
/// machine.
pub uninterp spec fn io_error_words(e: std::io::Error) -> Option<Seq<char>>;

/// `Display` of `std::io::Error`: of an error that carries its own words, the
/// words depend on the error alone. Of any other nothing is claimed.
#[verifier::external_body]
pub(crate) fn io_error_text(e: &std::io::Error) -> (words: String)
    ensures
        io_error_words(*e) matches Some(own) ==> words@ == own,
{
    e.to_string()
}

/// What `flate2::read::ZlibDecoder` makes of a buffer that it reads to the
/// end; the words of the error where it reports one.
pub uninterp spec fn zlib_inflated(data: Seq<u8>) -> Result<Seq<u8>, Seq<char>>;

/// `flate2::read::ZlibDecoder` over a buffer, read to the end: the outcome
/// depends on the buffer alone and is called `zlib_inflated`. Its errors carry
/// their own words.
#[verifier::external_body]
pub(crate) fn zlib_inflate(data: &[u8]) -> (result: Result<Vec<u8>, std::io::Error>)
    ensures
        match result {
            Ok(out) => zlib_inflated(data@) == Ok::<Seq<u8>, Seq<char>>(out@),
            Err(e) => io_error_words(e) matches Some(words) && zlib_inflated(data@) == Err::<
                Seq<u8>,
                Seq<char>,
            >(words),
        },
{
    let mut out: Vec<u8> = Vec::new();
    match flate2::read::ZlibDecoder::new(data).read_to_end(&mut out) {
        Ok(_) => Ok(out),
        Err(e) => Err(e),
    }
}

/// The SHA-1 digest of `data`, as the crate sha1 computes it.
pub uninterp spec fn sha1_of(data: Seq<u8>) -> Seq<u8>;

/// `Sha1::digest` of sha1: the digest, which has twenty bytes, depends on the
/// data alone and is called `sha1_of`.
#[verifier::external_body]
pub(crate) fn sha1_digest(data: &[u8]) -> (digest: Vec<u8>)
    ensures
        digest@ == sha1_of(data@),
        digest@.len() == 20,
{
    sha1::Sha1::digest(data).to_vec()
}

/// The MD5 digest of `data`, as the crate md5 computes it.
pub uninterp spec fn md5_of(data: Seq<u8>) -> Seq<u8>;

/// `md5::compute`: the digest, which has sixteen bytes, depends on the data
/// alone and is called `md5_of`.
#[verifier::external_body]
pub(crate) fn md5_digest(data: &[u8]) -> (digest: Vec<u8>)
    ensures
        digest@ == md5_of(data@),
        digest@.len() == 16,
{
    md5::compute(data).0.to_vec()
}

// ---------------------------------------------------------------------------
// Regular expressions
// ---------------------------------------------------------------------------

#[verifier::external_type_specification]
#[verifier::external_body]
pub struct ExRegex(regex::Regex);

#[verifier::external_type_specification]
#[verifier::external_body]
pub struct ExRegexError(regex::Error);

/// The pattern that a regular expression was made from: what `Regex::as_str`
/// gives. It decides how the regular expression matches because every one here
/// is made by `Regex::new`, with no other settings than the pattern, or is a
/// clone of one that was.
pub uninterp spec fn regex_source(re: regex::Regex) -> Seq<char>;

/// The words of an error: what its `Display` writes.
pub uninterp spec fn regex_error_words(e: regex::Error) -> Seq<char>;

/// What `Regex::new` objects to in a pattern; nothing where it accepts it.
pub uninterp spec fn regex_complaint(pattern: Seq<char>) -> Option<Seq<char>>;

/// Whether the regular expression of a pattern matches anywhere in a text.
pub uninterp spec fn regex_matches(pattern: Seq<char>, text: Seq<char>) -> bool;

/// `Regex::new`: whether a pattern is accepted, and with which words it is
/// refused, depends on the pattern alone; the regular expression keeps the
/// pattern it was made from.
#[verifier::external_body]
pub(crate) fn regex_new(pattern: &str) -> (result: Result<regex::Regex, regex::Error>)
    ensures
        match result {
            Ok(re) => regex_complaint(pattern@) is None && regex_source(re) == pattern@,
            Err(e) => regex_complaint(pattern@) == Some(regex_error_words(e)),
        },
{
    regex::Regex::new(pattern)
}

/// `Display` of `regex::Error`: the words depend on the error alone.
#[verifier::external_body]
pub(crate) fn regex_error_text(e: &regex::Error) -> (words: String)
    ensures
        words@ == regex_error_words(*e),
{
    e.to_string()
}

/// `Clone` of `Regex`: the clone has the pattern of the regular expression that
/// it was made from.
#[verifier::external_body]
pub(crate) fn regex_clone(re: &regex::Regex) -> (copy: regex::Regex)
    ensures
        regex_source(copy) == regex_source(*re),
{
    re.clone()
}

/// `Regex::is_match`: of a regular expression that `Regex::new` made, or a clone
/// of one, the answer depends on the pattern and the text alone.
#[verifier::external_body]
pub(crate) fn regex_is_match(re: &regex::Regex, text: &str) -> (found: bool)
    ensures
        found == regex_matches(regex_source(*re), text@),
{
    re.is_match(text)
}

// ---------------------------------------------------------------------------
// JSON
// ---------------------------------------------------------------------------

#[verifier::external_type_specification]
#[verifier::external_body]
pub struct ExJsonValue(serde_json::Value);

#[verifier::external_type_specification]
#[verifier::external_body]
pub struct ExJsonError(serde_json::Error);

/// The members of a JSON value whose values are strings; none where the value
/// is no object.
pub uninterp spec fn json_strings(value: serde_json::Value) -> Map<Seq<char>, Seq<char>>;

/// The words of an error that does not come from reading a file or a stream:
/// what its `Display` writes. One that does has none here, since its words may
/// be those of the operating system.
pub uninterp spec fn json_error_words(e: serde_json::Error) -> Option<Seq<char>>;

/// `Display` of `serde_json::Error`: of an error that does not come from reading
/// a file or a stream, the words depend on the error alone. Of any other nothing
/// is claimed.
#[verifier::external_body]
pub(crate) fn json_error_text(e: &serde_json::Error) -> (words: String)
    ensures
        json_error_words(*e) matches Some(own) ==> words@ == own,
{
    e.to_string()
}

/// The members with string values of the JSON document that a text is; the
/// words of the error where the text is not JSON.
pub uninterp spec fn json_document(text: Seq<char>) -> Result<
    Map<Seq<char>, Seq<char>>,
    Seq<char>,
>;

/// `serde_json::from_str` to a `Value`: whether the text is JSON, which string
/// members it has, and with which words it is refused, depends on the text
/// alone. A text is no file and no stream.
#[verifier::external_body]
pub(crate) fn json_parse(text: &str) -> (result: Result<serde_json::Value, serde_json::Error>)
    ensures
        match result {
            Ok(value) => json_document(text@) == Ok::<Map<Seq<char>, Seq<char>>, Seq<char>>(
                json_strings(value),
            ),
            Err(e) => json_error_words(e) matches Some(words) && json_document(text@) == Err::<
                Map<Seq<char>, Seq<char>>,
                Seq<char>,
            >(words),
        },
{
    serde_json::from_str(text)
}

/// `Value::get` with a key, and `Value::as_str` of what it finds: the member
/// of that name, if there is one and it is a string.
#[verifier::external_body]
pub(crate) fn json_string_member(value: &serde_json::Value, key: &str) -> (member: Option<String>)
    ensures
        match member {
            Some(s) => json_strings(*value).contains_key(key@) && s@ == json_strings(
                *value,
            )[key@],
            None => !json_strings(*value).contains_key(key@),
        },
{
    match value.get(key) {
        Some(member) => member.as_str().map(str::to_owned),
        None => None,
    }
}

// ---------------------------------------------------------------------------
// std
// ---------------------------------------------------------------------------

/// `char::from_u32` of std: the character of a number that is a Unicode scalar
/// value, and nothing for the surrogates and what lies above U+10FFFF.
pub assume_specification[ char::from_u32 ](i: u32) -> (c: Option<char>)
    ensures
        c == (if i < 0xD800 || 0xE000 <= i <= 0x10FFFF {
            Some(i as char)
        } else {
            None
        }),
;

#[verifier::external_type_specification]
#[verifier::external_body]
pub struct ExFromUtf8Error(std::string::FromUtf8Error);

/// `String::from_utf8` of std: the text that the bytes encode, if and only if
/// they are UTF-8.
#[verifier::external_body]
pub(crate) fn text_of_utf8(bytes: Vec<u8>) -> (result: Result<String, std::string::FromUtf8Error>)
    ensures
        match result {
            Ok(s) => vstd::utf8::valid_utf8(bytes@) && s@ == vstd::utf8::decode_utf8(bytes@),
            Err(_) => !vstd::utf8::valid_utf8(bytes@),
        },
{
    String::from_utf8(bytes)
}

/// The text of bytes that need not be UTF-8, with U+FFFD for what is not.
pub uninterp spec fn utf8_lossy(bytes: Seq<u8>) -> Seq<char>;

/// `String::from_utf8_lossy` of std: the text depends on the bytes alone and
/// is called `utf8_lossy`; where the bytes are UTF-8 it is what they encode.
#[verifier::external_body]
pub(crate) fn text_of_bytes(bytes: &[u8]) -> (s: String)
    ensures
        s@ == utf8_lossy(bytes@),
        vstd::utf8::valid_utf8(bytes@) ==> s@ == vstd::utf8::decode_utf8(bytes@),
{
    String::from_utf8_lossy(bytes).into_owned()
}

/// A text with its letters made small by the rules of Unicode.
pub uninterp spec fn unicode_lower(s: Seq<char>) -> Seq<char>;

/// `str::to_lowercase` of std: the text depends on the text alone and is
/// called `unicode_lower`; an ASCII text just has its capitals made small.
#[verifier::external_body]
pub(crate) fn lowercase(s: &str) -> (r: String)
    ensures
        r@ == unicode_lower(s@),
        vstd::utf8::is_ascii_chars(s@) ==> r@ == text::lower(s@),
{
    s.to_lowercase()
}

} // verus!
