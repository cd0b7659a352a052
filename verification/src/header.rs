//! The header grammar: an opaque leading block, an unused length, and four
//! tagged, length-prefixed text fields. Whatever follows them is the body.

use crate::decode::{
    expect_tag, read_bytes, read_text, read_u16_be, spec_expect_tag, spec_read_bytes,
    spec_read_text, spec_read_u16_be,
};
use crate::error::ParseError;
use vstd::prelude::*;
use vstd::string::*;

verus! {

/// Tag byte in front of the design field (`a`).
pub open spec fn tag_design() -> Seq<u8> {
    seq![0x61u8]
}

/// Tag byte in front of the device field (`b`).
pub open spec fn tag_device() -> Seq<u8> {
    seq![0x62u8]
}

/// Tag byte in front of the date field (`c`).
pub open spec fn tag_date() -> Seq<u8> {
    seq![0x63u8]
}

/// Tag byte in front of the time field (`d`).
pub open spec fn tag_time() -> Seq<u8> {
    seq![0x64u8]
}

/// The raw fields of a header as the grammar yields them: design, device and
/// date text, the body bytes, and the time text.
pub type RawFields = (Seq<char>, Seq<char>, Seq<char>, Seq<u8>, Seq<char>);

/// What is left of `s` after the opaque leading block and the unused length.
pub open spec fn spec_skip_preamble(s: Seq<u8>) -> Result<Seq<u8>, ParseError> {
    match spec_read_u16_be(s) {
        Err(e) => Err(e),
        Ok((s1, len)) => match spec_read_bytes(s1, len as nat) {
            Err(e) => Err(e),
            Ok((s2, _)) => match spec_read_u16_be(s2) {
                Err(e) => Err(e),
                Ok((s3, _)) => Ok(s3),
            },
        },
    }
}

/// One tagged field at the start of `s`: the tag, a 16-bit length, and that
/// many bytes of text.
pub open spec fn spec_tagged_text(s: Seq<u8>, tag: Seq<u8>) -> Result<
    (Seq<u8>, Seq<char>),
    ParseError,
> {
    match spec_expect_tag(s, tag) {
        Err(e) => Err(e),
        Ok((s1, _)) => match spec_read_u16_be(s1) {
            Err(e) => Err(e),
            Ok((s2, len)) => spec_read_text(s2, len as nat),
        },
    }
}

/// The header grammar applied to a whole file.
pub open spec fn spec_extract_info_seed(s: Seq<u8>) -> Result<RawFields, ParseError> {
    match spec_skip_preamble(s) {
        Err(e) => Err(e),
        Ok(s0) => match spec_tagged_text(s0, tag_design()) {
            Err(e) => Err(e),
            Ok((s1, design)) => match spec_tagged_text(s1, tag_device()) {
                Err(e) => Err(e),
                Ok((s2, device)) => match spec_tagged_text(s2, tag_date()) {
                    Err(e) => Err(e),
                    Ok((s3, date)) => match spec_tagged_text(s3, tag_time()) {
                        Err(e) => Err(e),
                        Ok((body, time)) => Ok((design, device, date, body, time)),
                    },
                },
            },
        },
    }
}

/// The four tag literals encode to the tag bytes of the grammar.
pub proof fn lemma_tag_literals()
    ensures
        "a".spec_bytes() == tag_design(),
        "b".spec_bytes() == tag_device(),
        "c".spec_bytes() == tag_date(),
        "d".spec_bytes() == tag_time(),
{
    reveal_strlit("a");
    reveal_strlit("b");
    reveal_strlit("c");
    reveal_strlit("d");
    is_ascii_spec_bytes("a");
    is_ascii_spec_bytes("b");
    is_ascii_spec_bytes("c");
    is_ascii_spec_bytes("d");
    assert("a".spec_bytes() =~= tag_design());
    assert("b".spec_bytes() =~= tag_device());
    assert("c".spec_bytes() =~= tag_date());
    assert("d".spec_bytes() =~= tag_time());
}

/// Skips the opaque leading block and the unused length that follows it.
pub fn skip_preamble(input: &[u8]) -> (r: Result<&[u8], ParseError>)
    ensures
        match r {
            Ok(rest) => spec_skip_preamble(input@) == Ok::<_, ParseError>(rest@),
            Err(e) => spec_skip_preamble(input@) == Err::<Seq<u8>, _>(e),
        },
{
    let (input, len) = match read_u16_be(input) {
        Ok(x) => x,
        Err(e) => { return Err(e); },
    };
    let (input, _block) = match read_bytes(input, len as usize) {
        Ok(x) => x,
        Err(e) => { return Err(e); },
    };
    let (input, _unused) = match read_u16_be(input) {
        Ok(x) => x,
        Err(e) => { return Err(e); },
    };
    Ok(input)
}

/// Reads one tagged, length-prefixed text field.
pub fn tagged_text<'a>(input: &'a [u8], literal: &str) -> (r: Result<
    (&'a [u8], String),
    ParseError,
>)
    ensures
        match r {
            Ok((rest, v)) => spec_tagged_text(input@, literal.spec_bytes()) == Ok::<
                _,
                ParseError,
            >((rest@, v@)),
            Err(e) => spec_tagged_text(input@, literal.spec_bytes()) == Err::<
                (Seq<u8>, Seq<char>),
                _,
            >(e),
        },
{
    let (input, _) = match expect_tag(input, literal) {
        Ok(x) => x,
        Err(e) => { return Err(e); },
    };
    let (input, len) = match read_u16_be(input) {
        Ok(x) => x,
        Err(e) => { return Err(e); },
    };
    read_text(input, len as usize)
}

/// Walks the header grammar over a whole file and yields the raw design,
/// device and date text, the body, and the raw time text, in that order.
///
/// Any failing step fails the whole walk; nothing partial is returned.
pub fn extract_info_seed(input: &[u8]) -> (r: Result<
    (String, String, String, &[u8], String),
    ParseError,
>)
    ensures
        match r {
            Ok((design, device, date, body, time)) => spec_extract_info_seed(input@) == Ok::<
                RawFields,
                ParseError,
            >((design@, device@, date@, body@, time@)),
            Err(e) => spec_extract_info_seed(input@) == Err::<RawFields, _>(e),
        },
{
    proof {
        lemma_tag_literals();
    }
    let input = match skip_preamble(input) {
        Ok(x) => x,
        Err(e) => { return Err(e); },
    };
    let (input, design) = match tagged_text(input, "a") {
        Ok(x) => x,
        Err(e) => { return Err(e); },
    };
    let (input, device) = match tagged_text(input, "b") {
        Ok(x) => x,
        Err(e) => { return Err(e); },
    };
    let (input, date) = match tagged_text(input, "c") {
        Ok(x) => x,
        Err(e) => { return Err(e); },
    };
    let (input, time) = match tagged_text(input, "d") {
        Ok(x) => x,
        Err(e) => { return Err(e); },
    };
    Ok((design, device, date, input, time))
}

} // verus!
