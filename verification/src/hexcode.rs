//! Hexadecimal text, as the `hex` crate reads it.
use vstd::prelude::*;
use vstd::string::StringSliceAdditionalSpecFns;

verus! {

#[verifier::external_type_specification]
#[verifier::external_body]
pub struct ExFromHexError(hex::FromHexError);

/// The value of one hexadecimal digit, in either case.
pub open spec fn hex_digit(c: u8) -> Option<u8> {
    if 0x30 <= c <= 0x39 {
        Some((c - 0x30) as u8)
    } else if 0x61 <= c <= 0x66 {
        Some((c - 0x61 + 10) as u8)
    } else if 0x41 <= c <= 0x46 {
        Some((c - 0x41 + 10) as u8)
    } else {
        None
    }
}

/// The bytes that a hexadecimal text denotes, two digits to a byte, if it has
/// an even number of characters and each is a digit.
pub open spec fn hex_decoded(s: Seq<u8>) -> Option<Seq<u8>> {
    if s.len() % 2 != 0 || exists|i: int| 0 <= i < s.len() && hex_digit(#[trigger] s[i]) is None {
        None
    } else {
        Some(
            Seq::new(
                s.len() / 2,
                |i: int| (hex_digit(s[2 * i])->0 * 16 + hex_digit(s[2 * i + 1])->0) as u8,
            ),
        )
    }
}

/// The bytes that follow a two-character prefix such as `0x`, if the text is
/// that long and what follows is hexadecimal.
pub open spec fn hex_payload(s: Seq<u8>) -> Option<Seq<u8>> {
    if s.len() < 2 {
        None
    } else {
        hex_decoded(s.skip(2))
    }
}

/// `hex::decode`: the bytes of a text of hexadecimal digit pairs, and an
/// error for a text of odd length or with a character that is no digit.
#[verifier::external_body]
fn hex_decode(data: &[u8]) -> (r: Result<Vec<u8>, hex::FromHexError>)
    ensures
        match r {
            Ok(v) => hex_decoded(data@) == Some(v@),
            Err(_) => hex_decoded(data@) is None,
        },
{
    hex::decode(data)
}

/// Decodes what follows the two-character prefix of a hexadecimal text.
pub fn decode_prefixed(text: &str) -> (r: Option<Vec<u8>>)
    ensures
        match r {
            Some(v) => hex_payload(text.spec_bytes()) == Some(v@),
            None => hex_payload(text.spec_bytes()) is None,
        },
{
    let bytes = text.as_bytes();
    if bytes.len() < 2 {
        return None;
    }
    let tail = vstd::slice::slice_subrange(bytes, 2, bytes.len());
    assert(tail@ =~= bytes@.skip(2));
    match hex_decode(tail) {
        Ok(v) => Some(v),
        Err(_) => None,
    }
}

} // verus!
