//! Decoding primitives over a byte cursor.
//!
//! Every primitive takes the bytes that are left and returns the bytes that
//! remain after it together with the decoded value. On failure nothing is
//! consumed: the caller still holds its input.

use crate::error::ParseError;
use crate::text::utf8_text;
use vstd::prelude::*;
use vstd::slice::slice_subrange;
use vstd::string::*;
use vstd::utf8::*;

verus! {

/// The number that two bytes spell in big-endian order.
pub open spec fn be16(hi: u8, lo: u8) -> u16 {
    (hi as int * 256 + lo as int) as u16
}

/// A big-endian 16-bit number at the start of `s`.
pub open spec fn spec_read_u16_be(s: Seq<u8>) -> Result<(Seq<u8>, u16), ParseError> {
    if s.len() < 2 {
        Err(ParseError::Truncated)
    } else {
        Ok((s.skip(2), be16(s[0], s[1])))
    }
}

/// The first `n` bytes of `s`, verbatim.
pub open spec fn spec_read_bytes(s: Seq<u8>, n: nat) -> Result<(Seq<u8>, Seq<u8>), ParseError> {
    if s.len() < n {
        Err(ParseError::Truncated)
    } else {
        Ok((s.skip(n as int), s.take(n as int)))
    }
}

/// The first `n` bytes of `s`, read as UTF-8 text.
pub open spec fn spec_read_text(s: Seq<u8>, n: nat) -> Result<(Seq<u8>, Seq<char>), ParseError> {
    if s.len() < n {
        Err(ParseError::Truncated)
    } else if !valid_utf8(s.take(n as int)) {
        Err(ParseError::InvalidText)
    } else {
        Ok((s.skip(n as int), decode_utf8(s.take(n as int))))
    }
}

/// The bytes of `tag` at the start of `s`.
pub open spec fn spec_expect_tag(s: Seq<u8>, tag: Seq<u8>) -> Result<(Seq<u8>, Seq<u8>), ParseError> {
    if s.len() < tag.len() {
        Err(ParseError::Truncated)
    } else if s.take(tag.len() as int) != tag {
        Err(ParseError::TagMismatch)
    } else {
        Ok((s.skip(tag.len() as int), tag))
    }
}

/// Reads a big-endian 16-bit number.
pub fn read_u16_be(input: &[u8]) -> (r: Result<(&[u8], u16), ParseError>)
    ensures
        match r {
            Ok((rest, v)) => spec_read_u16_be(input@) == Ok::<_, ParseError>((rest@, v)),
            Err(e) => spec_read_u16_be(input@) == Err::<(Seq<u8>, u16), _>(e),
        },
{
    if input.len() < 2 {
        return Err(ParseError::Truncated);
    }
    let hi: u16 = input[0] as u16;
    let lo: u16 = input[1] as u16;
    let rest = slice_subrange(input, 2, input.len());
    Ok((rest, hi * 256 + lo))
}

/// Reads `n` bytes verbatim.
pub fn read_bytes(input: &[u8], n: usize) -> (r: Result<(&[u8], &[u8]), ParseError>)
    ensures
        match r {
            Ok((rest, v)) => spec_read_bytes(input@, n as nat) == Ok::<_, ParseError>(
                (rest@, v@),
            ),
            Err(e) => spec_read_bytes(input@, n as nat) == Err::<(Seq<u8>, Seq<u8>), _>(e),
        },
{
    if input.len() < n {
        return Err(ParseError::Truncated);
    }
    let taken = slice_subrange(input, 0, n);
    let rest = slice_subrange(input, n, input.len());
    Ok((rest, taken))
}

/// Reads `n` bytes as text.
pub fn read_text(input: &[u8], n: usize) -> (r: Result<(&[u8], String), ParseError>)
    ensures
        match r {
            Ok((rest, v)) => spec_read_text(input@, n as nat) == Ok::<_, ParseError>(
                (rest@, v@),
            ),
            Err(e) => spec_read_text(input@, n as nat) == Err::<(Seq<u8>, Seq<char>), _>(e),
        },
{
    if input.len() < n {
        return Err(ParseError::Truncated);
    }
    let taken = slice_subrange(input, 0, n);
    let rest = slice_subrange(input, n, input.len());
    match utf8_text(taken) {
        Some(s) => {
            proof {
                encode_utf8_decode_utf8(s@);
            }
            Ok((rest, String::from_str(s)))
        },
        None => Err(ParseError::InvalidText),
    }
}

/// Consumes the bytes of `literal`, which must stand at the start of `input`.
pub fn expect_tag<'a>(input: &'a [u8], literal: &str) -> (r: Result<
    (&'a [u8], &'a [u8]),
    ParseError,
>)
    ensures
        match r {
            Ok((rest, v)) => spec_expect_tag(input@, literal.spec_bytes()) == Ok::<_, ParseError>(
                (rest@, v@),
            ),
            Err(e) => spec_expect_tag(input@, literal.spec_bytes()) == Err::<
                (Seq<u8>, Seq<u8>),
                _,
            >(e),
        },
{
    let tag = literal.as_bytes();
    let n: usize = tag.len();
    if input.len() < n {
        return Err(ParseError::Truncated);
    }
    let mut i: usize = 0;
    while i < n
        invariant
            i <= n,
            n == tag@.len(),
            n <= input@.len(),
            tag@ == literal.spec_bytes(),
            forall|j: int| 0 <= j < i ==> input@[j] == tag@[j],
        decreases n - i,
    {
        if input[i] != tag[i] {
            proof {
                assert(input@.take(n as int)[i as int] != tag@[i as int]);
            }
            return Err(ParseError::TagMismatch);
        }
        i += 1;
    }
    let taken = slice_subrange(input, 0, n);
    let rest = slice_subrange(input, n, input.len());
    proof {
        assert(input@.take(n as int) =~= tag@);
    }
    Ok((rest, taken))
}

} // verus!
