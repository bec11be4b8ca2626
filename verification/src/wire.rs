//! Little-endian integers, tags and length-prefixed blobs: what they mean as
//! mathematics, and the `nom` parsers that read them.

use vstd::prelude::*;
use vstd::utf8::{decode_utf8, valid_utf8};

verus! {

/// The unsigned number that the first four bytes of `s` spell, least
/// significant byte first.
pub open spec fn le_u32_value(s: Seq<u8>) -> int
    recommends
        s.len() >= 4,
{
    s[0] as int + 0x100 * (s[1] as int) + 0x1_0000 * (s[2] as int) + 0x100_0000 * (s[3] as int)
}

/// The same four bytes read as a two's-complement signed number.
pub open spec fn le_i32_value(s: Seq<u8>) -> int
    recommends
        s.len() >= 4,
{
    if le_u32_value(s) >= 0x8000_0000 {
        le_u32_value(s) - 0x1_0000_0000
    } else {
        le_u32_value(s)
    }
}

/// A blob is a four-byte little-endian length followed by that many bytes.
/// Gives what follows the blob and the blob's bytes, or `None` when `s` is
/// too short for the length field or for the length it declares.
pub open spec fn length_prefixed(s: Seq<u8>) -> Option<(Seq<u8>, Seq<u8>)> {
    if s.len() >= 4 && 4 + le_u32_value(s) <= s.len() {
        Some((s.skip(4 + le_u32_value(s)), s.subrange(4, 4 + le_u32_value(s))))
    } else {
        None
    }
}

/// What `String::from_utf8_lossy` makes of bytes that are not valid UTF-8,
/// where it substitutes U+FFFD for each malformed sequence.
pub uninterp spec fn lossy_text(bytes: Seq<u8>) -> Seq<char>;

/// The text that a key's bytes stand for: their UTF-8 decoding where they
/// are valid UTF-8, the lossy repair otherwise.
pub open spec fn key_text(bytes: Seq<u8>) -> Seq<char> {
    if valid_utf8(bytes) {
        decode_utf8(bytes)
    } else {
        lossy_text(bytes)
    }
}

/// `nom::Err`, carried through unopened.
#[verifier::external_type_specification]
#[verifier::external_body]
#[verifier::reject_recursive_types(E)]
pub struct ExNomErr<E>(nom::Err<E>);

/// `nom::error::Error`, carried through unopened.
#[verifier::external_type_specification]
#[verifier::external_body]
#[verifier::reject_recursive_types(I)]
pub struct ExNomError<I>(nom::error::Error<I>);

/// Calls `nom::number::complete::le_u32`. Trusted: it succeeds exactly when
/// four bytes are present, yields their little-endian value and hands back
/// the input without those four bytes.
#[verifier::external_body]
pub(crate) fn le_u32<'a>(input: &'a [u8]) -> (r: Result<
    (&'a [u8], u32),
    nom::Err<nom::error::Error<&'a [u8]>>,
>)
    ensures
        r is Ok <==> input@.len() >= 4,
        r matches Ok((rest, value)) ==> rest@ == input@.skip(4) && value == le_u32_value(input@),
{
    nom::number::complete::le_u32(input)
}

/// Calls `nom::number::complete::le_i32`. Trusted: as `le_u32`, with the
/// four bytes read as a two's-complement number.
#[verifier::external_body]
pub(crate) fn le_i32<'a>(input: &'a [u8]) -> (r: Result<
    (&'a [u8], i32),
    nom::Err<nom::error::Error<&'a [u8]>>,
>)
    ensures
        r is Ok <==> input@.len() >= 4,
        r matches Ok((rest, value)) ==> rest@ == input@.skip(4) && value == le_i32_value(input@),
{
    nom::number::complete::le_i32(input)
}

/// Calls `nom::bytes::complete::tag`. Trusted: it succeeds exactly when the
/// input begins with the bytes of `name`, and then hands back the input
/// without them, and the matched bytes.
#[verifier::external_body]
pub(crate) fn tag<'a>(name: &[u8], input: &'a [u8]) -> (r: Result<
    (&'a [u8], &'a [u8]),
    nom::Err<nom::error::Error<&'a [u8]>>,
>)
    ensures
        r is Ok <==> name@.is_prefix_of(input@),
        r matches Ok((rest, found)) ==> rest@ == input@.skip(name@.len() as int) && found@
            == name@,
{
    nom::bytes::complete::tag(name)(input)
}

/// Calls `nom::multi::length_data` over `nom::number::complete::le_u32`.
/// Trusted: it succeeds exactly when the input holds a four-byte length and
/// at least that many bytes after it, and then hands back what follows
/// those bytes, and the bytes themselves.
#[verifier::external_body]
pub(crate) fn length_data<'a>(input: &'a [u8]) -> (r: Result<
    (&'a [u8], &'a [u8]),
    nom::Err<nom::error::Error<&'a [u8]>>,
>)
    ensures
        r is Ok <==> length_prefixed(input@) is Some,
        r matches Ok((rest, data)) ==> length_prefixed(input@) == Some((rest@, data@)),
{
    nom::multi::length_data(nom::number::complete::le_u32)(input)
}

/// Calls `String::from_utf8_lossy`. Trusted: valid UTF-8 comes back as the
/// text it encodes; for anything else the result is only given a name.
#[verifier::external_body]
pub(crate) fn from_utf8_lossy(bytes: &[u8]) -> (text: String)
    ensures
        valid_utf8(bytes@) ==> text@ == decode_utf8(bytes@),
        !valid_utf8(bytes@) ==> text@ == lossy_text(bytes@),
{
    String::from_utf8_lossy(bytes).into_owned()
}

} // verus!
