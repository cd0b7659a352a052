//! Laws of the header grammar and of the normaliser, stated over the spec
//! functions that the contracts of the library use.

use crate::decode::{be16, spec_expect_tag, spec_read_bytes, spec_read_text, spec_read_u16_be};
use crate::digest::{hex, md5_of};
use crate::error::ParseError;
use crate::header::{
    spec_extract_info_seed, spec_skip_preamble, spec_tagged_text, tag_date, tag_design,
    tag_device, tag_time, RawFields,
};
use crate::record::{
    spec_assemble, spec_body, spec_datetime, spec_info, spec_options, spec_top_design, InfoView,
};
use crate::text::{
    join, lemma_split_first, lemma_split_segments, lemma_split_tail,
    lemma_split_without_separator,
};
use vstd::prelude::*;
use vstd::utf8::*;

verus! {

/// The two bytes that spell `n` in big-endian order.
pub open spec fn be16_bytes(n: u16) -> Seq<u8> {
    seq![(n / 256) as u8, (n % 256) as u8]
}

/// A tagged field followed by `rest`: the tag, the length of the text in
/// bytes, the text, and then `rest`.
pub open spec fn tagged_then(tag: Seq<u8>, text: Seq<u8>, rest: Seq<u8>) -> Seq<u8> {
    tag + (be16_bytes(text.len() as u16) + (text + rest))
}

/// The bytes of a file with the given raw fields: the opaque leading block
/// behind its length, two unused bytes, the four tagged texts, and the body.
pub open spec fn layout(
    block: Seq<u8>,
    unused: Seq<u8>,
    design: Seq<char>,
    device: Seq<char>,
    date: Seq<char>,
    time: Seq<char>,
    body: Seq<u8>,
) -> Seq<u8> {
    be16_bytes(block.len() as u16) + (block + (unused + tagged_then(
        tag_design(),
        encode_utf8(design),
        tagged_then(
            tag_device(),
            encode_utf8(device),
            tagged_then(
                tag_date(),
                encode_utf8(date),
                tagged_then(tag_time(), encode_utf8(time), body),
            ),
        ),
    )))
}

/// Whether the parts of a layout fit the 16-bit length fields of the format.
pub open spec fn fits(
    block: Seq<u8>,
    unused: Seq<u8>,
    design: Seq<char>,
    device: Seq<char>,
    date: Seq<char>,
    time: Seq<char>,
) -> bool {
    &&& block.len() <= 0xffff
    &&& unused.len() == 2
    &&& encode_utf8(design).len() <= 0xffff
    &&& encode_utf8(device).len() <= 0xffff
    &&& encode_utf8(date).len() <= 0xffff
    &&& encode_utf8(time).len() <= 0xffff
}

/// A bitstream file built from its parts, each text closed by a NUL.
pub open spec fn build(
    block: Seq<u8>,
    unused: Seq<u8>,
    design: Seq<char>,
    device: Seq<char>,
    date: Seq<char>,
    time: Seq<char>,
    body: Seq<u8>,
) -> Seq<u8> {
    layout(
        block,
        unused,
        design.push('\0'),
        device.push('\0'),
        date.push('\0'),
        time.push('\0'),
        body,
    )
}

/// Whether the parts of a built file fit the 16-bit length fields.
pub open spec fn buildable(
    block: Seq<u8>,
    unused: Seq<u8>,
    design: Seq<char>,
    device: Seq<char>,
    date: Seq<char>,
    time: Seq<char>,
) -> bool {
    fits(block, unused, design.push('\0'), device.push('\0'), date.push('\0'), time.push('\0'))
}

/// A 16-bit number is read back from the two bytes that spell it.
proof fn lemma_u16_then(n: u16, rest: Seq<u8>)
    ensures
        spec_read_u16_be(be16_bytes(n) + rest) == Ok::<_, ParseError>((rest, n)),
{
    let s = be16_bytes(n) + rest;
    assert(s.skip(2) =~= rest);
    assert(s[0] == (n / 256) as u8);
    assert(s[1] == (n % 256) as u8);
    assert(be16(s[0], s[1]) == n);
}

/// A block is read back from the front of what it was put before.
proof fn lemma_bytes_then(block: Seq<u8>, rest: Seq<u8>)
    ensures
        spec_read_bytes(block + rest, block.len()) == Ok::<_, ParseError>((rest, block)),
{
    let s = block + rest;
    assert(s.skip(block.len() as int) =~= rest);
    assert(s.take(block.len() as int) =~= block);
}

/// A text is read back from its UTF-8 encoding.
proof fn lemma_text_then(text: Seq<char>, rest: Seq<u8>)
    ensures
        spec_read_text(encode_utf8(text) + rest, encode_utf8(text).len()) == Ok::<_, ParseError>(
            (rest, text),
        ),
{
    let b = encode_utf8(text);
    let s = b + rest;
    assert(s.skip(b.len() as int) =~= rest);
    assert(s.take(b.len() as int) =~= b);
    encode_utf8_valid_utf8(text);
    encode_utf8_decode_utf8(text);
}

/// A tagged field is read back from its bytes.
proof fn lemma_tagged_then(tag: Seq<u8>, value: Seq<char>, rest: Seq<u8>)
    requires
        encode_utf8(value).len() <= 0xffff,
    ensures
        spec_tagged_text(tagged_then(tag, encode_utf8(value), rest), tag) == Ok::<_, ParseError>(
            (rest, value),
        ),
{
    let text = encode_utf8(value);
    let after_tag = be16_bytes(text.len() as u16) + (text + rest);
    let s = tag + after_tag;
    assert(s.skip(tag.len() as int) =~= after_tag);
    assert(s.take(tag.len() as int) =~= tag);
    lemma_u16_then(text.len() as u16, text + rest);
    lemma_text_then(value, rest);
}

/// The leading block and the unused bytes are skipped as a whole.
proof fn lemma_preamble_then(block: Seq<u8>, unused: Seq<u8>, rest: Seq<u8>)
    requires
        block.len() <= 0xffff,
        unused.len() == 2,
    ensures
        spec_skip_preamble(be16_bytes(block.len() as u16) + (block + (unused + rest))) == Ok::<
            _,
            ParseError,
        >(rest),
{
    let n = be16(unused[0], unused[1]);
    assert(unused =~= be16_bytes(n)) by {
        assert((n / 256) as u8 == unused[0]);
        assert((n % 256) as u8 == unused[1]);
    }
    lemma_u16_then(block.len() as u16, block + (unused + rest));
    lemma_bytes_then(block, unused + rest);
    lemma_u16_then(n, rest);
}

/// Parsing a layout gives its parts back: the four texts and the body.
pub proof fn lemma_walk_of_layout(
    block: Seq<u8>,
    unused: Seq<u8>,
    design: Seq<char>,
    device: Seq<char>,
    date: Seq<char>,
    time: Seq<char>,
    body: Seq<u8>,
)
    requires
        fits(block, unused, design, device, date, time),
    ensures
        spec_extract_info_seed(layout(block, unused, design, device, date, time, body)) == Ok::<
            RawFields,
            ParseError,
        >((design, device, date, body, time)),
{
    let f4 = tagged_then(tag_time(), encode_utf8(time), body);
    let f3 = tagged_then(tag_date(), encode_utf8(date), f4);
    let f2 = tagged_then(tag_device(), encode_utf8(device), f3);
    let f1 = tagged_then(tag_design(), encode_utf8(design), f2);
    let file = layout(block, unused, design, device, date, time, body);
    assert(spec_skip_preamble(file) == Ok::<_, ParseError>(f1)) by {
        lemma_preamble_then(block, unused, f1);
    }
    assert(spec_tagged_text(f1, tag_design()) == Ok::<_, ParseError>((f2, design))) by {
        lemma_tagged_then(tag_design(), design, f2);
    }
    assert(spec_tagged_text(f2, tag_device()) == Ok::<_, ParseError>((f3, device))) by {
        lemma_tagged_then(tag_device(), device, f3);
    }
    assert(spec_tagged_text(f3, tag_date()) == Ok::<_, ParseError>((f4, date))) by {
        lemma_tagged_then(tag_date(), date, f4);
    }
    assert(spec_tagged_text(f4, tag_time()) == Ok::<_, ParseError>((body, time))) by {
        lemma_tagged_then(tag_time(), time, body);
    }
}

/// Bytes from which a 16-bit number is read start with its two bytes.
proof fn lemma_u16_shape(s: Seq<u8>)
    requires
        spec_read_u16_be(s) is Ok,
    ensures
        ({
            let (rest, v) = spec_read_u16_be(s)->Ok_0;
            s == be16_bytes(v) + rest
        }),
{
    let (rest, v) = spec_read_u16_be(s)->Ok_0;
    assert((v / 256) as u8 == s[0]);
    assert((v % 256) as u8 == s[1]);
    assert(s =~= be16_bytes(v) + rest);
}

/// Bytes from which a tagged field is read are that field and the rest.
proof fn lemma_tagged_shape(s: Seq<u8>, tag: Seq<u8>)
    requires
        spec_tagged_text(s, tag) is Ok,
    ensures
        ({
            let (rest, value) = spec_tagged_text(s, tag)->Ok_0;
            &&& encode_utf8(value).len() <= 0xffff
            &&& s == tagged_then(tag, encode_utf8(value), rest)
        }),
{
    let (s1, _) = spec_expect_tag(s, tag)->Ok_0;
    let (s2, len) = spec_read_u16_be(s1)->Ok_0;
    let (rest, value) = spec_read_text(s2, len as nat)->Ok_0;
    let text = s2.take(len as int);
    decode_utf8_encode_utf8(text);
    lemma_u16_shape(s1);
    assert(s2 =~= text + rest);
    assert(s =~= tag + s1);
}

/// The opaque block at the head of a file, behind its 16-bit length.
pub open spec fn leading_block(file: Seq<u8>) -> Seq<u8> {
    file.subrange(2, 2 + be16(file[0], file[1]))
}

/// The two bytes between the leading block and the first tag.
pub open spec fn unused_length(file: Seq<u8>) -> Seq<u8> {
    file.subrange(2 + be16(file[0], file[1]), 4 + be16(file[0], file[1]))
}

/// Bytes whose preamble can be skipped are the preamble and the rest.
proof fn lemma_preamble_shape(file: Seq<u8>)
    requires
        spec_skip_preamble(file) is Ok,
    ensures
        leading_block(file).len() <= 0xffff,
        unused_length(file).len() == 2,
        file == be16_bytes(leading_block(file).len() as u16) + (leading_block(file) + (
            unused_length(file) + spec_skip_preamble(file)->Ok_0)),
{
    let (behind_len, len) = spec_read_u16_be(file)->Ok_0;
    let (behind_block, block) = spec_read_bytes(behind_len, len as nat)->Ok_0;
    let (rest, _) = spec_read_u16_be(behind_block)->Ok_0;
    assert(block =~= leading_block(file));
    assert(behind_block.take(2) =~= unused_length(file));
    lemma_u16_shape(file);
    assert(behind_len =~= block + behind_block);
    assert(behind_block =~= behind_block.take(2) + rest);
}

/// Only layouts parse: a file that has raw fields is the layout of its
/// leading block, its two unused bytes, and those fields.
pub proof fn lemma_parsed_file_is_layout(file: Seq<u8>)
    requires
        spec_extract_info_seed(file) is Ok,
    ensures
        ({
            let (design, device, date, body, time) = spec_extract_info_seed(file)->Ok_0;
            &&& fits(leading_block(file), unused_length(file), design, device, date, time)
            &&& file == layout(
                leading_block(file),
                unused_length(file),
                design,
                device,
                date,
                time,
                body,
            )
        }),
{
    let f1 = spec_skip_preamble(file)->Ok_0;
    let (f2, design) = spec_tagged_text(f1, tag_design())->Ok_0;
    let (f3, device) = spec_tagged_text(f2, tag_device())->Ok_0;
    let (f4, date) = spec_tagged_text(f3, tag_date())->Ok_0;
    let (body, time) = spec_tagged_text(f4, tag_time())->Ok_0;
    assert(encode_utf8(time).len() <= 0xffff && f4 == tagged_then(
        tag_time(),
        encode_utf8(time),
        body,
    )) by {
        lemma_tagged_shape(f4, tag_time());
    }
    assert(encode_utf8(date).len() <= 0xffff && f3 == tagged_then(
        tag_date(),
        encode_utf8(date),
        f4,
    )) by {
        lemma_tagged_shape(f3, tag_date());
    }
    assert(encode_utf8(device).len() <= 0xffff && f2 == tagged_then(
        tag_device(),
        encode_utf8(device),
        f3,
    )) by {
        lemma_tagged_shape(f2, tag_device());
    }
    assert(encode_utf8(design).len() <= 0xffff && f1 == tagged_then(
        tag_design(),
        encode_utf8(design),
        f2,
    )) by {
        lemma_tagged_shape(f1, tag_design());
    }
    lemma_preamble_shape(file);
}

/// Parsing a file that was built from its parts gives the parts back: the
/// four texts, each with its closing NUL, and the body.
pub proof fn lemma_walk_recovers_parts(
    block: Seq<u8>,
    unused: Seq<u8>,
    design: Seq<char>,
    device: Seq<char>,
    date: Seq<char>,
    time: Seq<char>,
    body: Seq<u8>,
)
    requires
        buildable(block, unused, design, device, date, time),
    ensures
        spec_extract_info_seed(build(block, unused, design, device, date, time, body)) == Ok::<
            RawFields,
            ParseError,
        >((design.push('\0'), device.push('\0'), date.push('\0'), body, time.push('\0'))),
{
    lemma_walk_of_layout(
        block,
        unused,
        design.push('\0'),
        device.push('\0'),
        date.push('\0'),
        time.push('\0'),
        body,
    );
}

/// Fields that hold a text and its closing NUL assemble to a record of the
/// texts themselves.
pub proof fn lemma_assemble_closed_fields(
    design: Seq<char>,
    device: Seq<char>,
    date: Seq<char>,
    time: Seq<char>,
    md5_body_section: Seq<char>,
    md5_full_file: Seq<char>,
)
    requires
        design.len() > 0,
        device.len() > 0,
        date.len() > 0,
        time.len() > 0,
    ensures
        spec_assemble(
            design.push('\0'),
            device.push('\0'),
            date.push('\0'),
            time.push('\0'),
            md5_body_section,
            md5_full_file,
        ) == Ok::<_, ParseError>(
            (InfoView {
                path: None,
                design: spec_top_design(design),
                options: spec_options(design),
                device: device,
                datetime: spec_datetime(date, time),
                md5_body_section: md5_body_section,
                md5_full_file: md5_full_file,
            }),
        ),
{
    assert(design.push('\0').drop_last() =~= design);
    assert(device.push('\0').drop_last() =~= device);
    assert(date.push('\0').drop_last() =~= date);
    assert(time.push('\0').drop_last() =~= time);
}

/// A file whose raw fields are texts with their closing NUL has the record
/// of the texts themselves, with the digest of its body and of all its bytes.
pub proof fn lemma_info_of_closed_fields(
    file: Seq<u8>,
    design: Seq<char>,
    device: Seq<char>,
    date: Seq<char>,
    time: Seq<char>,
    body: Seq<u8>,
)
    requires
        spec_extract_info_seed(file) == Ok::<RawFields, ParseError>(
            (design.push('\0'), device.push('\0'), date.push('\0'), body, time.push('\0')),
        ),
        design.len() > 0,
        device.len() > 0,
        date.len() > 0,
        time.len() > 0,
    ensures
        spec_body(file) == body,
        spec_info(file) == Ok::<_, ParseError>(
            (InfoView {
                path: None,
                design: spec_top_design(design),
                options: spec_options(design),
                device: device,
                datetime: spec_datetime(date, time),
                md5_body_section: hex(md5_of(body)),
                md5_full_file: hex(md5_of(file)),
            }),
        ),
{
    lemma_assemble_closed_fields(
        design,
        device,
        date,
        time,
        hex(md5_of(body)),
        hex(md5_of(file)),
    );
}

/// The record of a file that was built from its parts holds the parts: the
/// design name and options of the design text, the device, date and time as
/// they were given, the digest of the very body and the digest of all the
/// bytes of the file. This needs every text to be non-empty: a field that
/// holds the closing NUL alone is refused.
pub proof fn lemma_info_recovers_parts(
    block: Seq<u8>,
    unused: Seq<u8>,
    design: Seq<char>,
    device: Seq<char>,
    date: Seq<char>,
    time: Seq<char>,
    body: Seq<u8>,
)
    requires
        buildable(block, unused, design, device, date, time),
        design.len() > 0,
        device.len() > 0,
        date.len() > 0,
        time.len() > 0,
    ensures
        spec_body(build(block, unused, design, device, date, time, body)) == body,
        spec_info(build(block, unused, design, device, date, time, body)) == Ok::<_, ParseError>(
            (InfoView {
                path: None,
                design: spec_top_design(design),
                options: spec_options(design),
                device: device,
                datetime: spec_datetime(date, time),
                md5_body_section: hex(md5_of(body)),
                md5_full_file: hex(
                    md5_of(build(block, unused, design, device, date, time, body)),
                ),
            }),
        ),
{
    let file = build(block, unused, design, device, date, time, body);
    lemma_walk_recovers_parts(block, unused, design, device, date, time, body);
    lemma_info_of_closed_fields(file, design, device, date, time, body);
}

/// A file in which some field holds the closing NUL alone, or nothing at
/// all, has no record.
pub proof fn lemma_empty_field_is_rejected(file: Seq<u8>)
    requires
        spec_extract_info_seed(file) is Ok,
        ({
            let (design, device, date, body, time) = spec_extract_info_seed(file)->Ok_0;
            design.len() < 2 || device.len() < 2 || date.len() < 2 || time.len() < 2
        }),
    ensures
        spec_info(file) == Err::<InfoView, _>(ParseError::EmptyField),
{
}

/// How many bytes of `s` a step consumed that left `rest`.
pub open spec fn consumed(s: Seq<u8>, rest: Seq<u8>) -> int {
    s.len() - rest.len()
}

/// Reading a 16-bit number from a prefix: an error where the prefix ends
/// inside the number, the same number otherwise.
proof fn lemma_u16_cut(s: Seq<u8>, m: int)
    requires
        spec_read_u16_be(s) is Ok,
        0 <= m <= s.len(),
    ensures
        ({
            let (rest, v) = spec_read_u16_be(s)->Ok_0;
            let k = consumed(s, rest);
            &&& 0 <= k <= s.len()
            &&& rest == s.skip(k)
            &&& m < k ==> spec_read_u16_be(s.take(m)) is Err
            &&& m >= k ==> spec_read_u16_be(s.take(m)) == Ok::<_, ParseError>(
                (rest.take(m - k), v),
            )
        }),
{
    if m >= 2 {
        assert(s.take(m).skip(2) =~= s.skip(2).take(m - 2));
    }
}

/// Reading a block from a prefix: an error where the prefix ends inside
/// the block, the same block otherwise.
proof fn lemma_bytes_cut(s: Seq<u8>, n: nat, m: int)
    requires
        spec_read_bytes(s, n) is Ok,
        0 <= m <= s.len(),
    ensures
        ({
            let (rest, v) = spec_read_bytes(s, n)->Ok_0;
            let k = consumed(s, rest);
            &&& 0 <= k <= s.len()
            &&& rest == s.skip(k)
            &&& m < k ==> spec_read_bytes(s.take(m), n) is Err
            &&& m >= k ==> spec_read_bytes(s.take(m), n) == Ok::<_, ParseError>(
                (rest.take(m - k), v),
            )
        }),
{
    if m >= n {
        assert(s.take(m).skip(n as int) =~= s.skip(n as int).take(m - n));
        assert(s.take(m).take(n as int) =~= s.take(n as int));
    }
}

/// Reading a text from a prefix: an error where the prefix ends inside the
/// text, the same text otherwise.
proof fn lemma_text_cut(s: Seq<u8>, n: nat, m: int)
    requires
        spec_read_text(s, n) is Ok,
        0 <= m <= s.len(),
    ensures
        ({
            let (rest, v) = spec_read_text(s, n)->Ok_0;
            let k = consumed(s, rest);
            &&& 0 <= k <= s.len()
            &&& rest == s.skip(k)
            &&& m < k ==> spec_read_text(s.take(m), n) is Err
            &&& m >= k ==> spec_read_text(s.take(m), n) == Ok::<_, ParseError>(
                (rest.take(m - k), v),
            )
        }),
{
    if m >= n {
        assert(s.take(m).skip(n as int) =~= s.skip(n as int).take(m - n));
        assert(s.take(m).take(n as int) =~= s.take(n as int));
    }
}

/// Reading a tag from a prefix: an error where the prefix ends inside the
/// tag, the same tag otherwise.
proof fn lemma_tag_cut(s: Seq<u8>, tag: Seq<u8>, m: int)
    requires
        spec_expect_tag(s, tag) is Ok,
        0 <= m <= s.len(),
    ensures
        ({
            let (rest, v) = spec_expect_tag(s, tag)->Ok_0;
            let k = consumed(s, rest);
            &&& 0 <= k <= s.len()
            &&& rest == s.skip(k)
            &&& m < k ==> spec_expect_tag(s.take(m), tag) is Err
            &&& m >= k ==> spec_expect_tag(s.take(m), tag) == Ok::<_, ParseError>(
                (rest.take(m - k), v),
            )
        }),
{
    let n = tag.len() as int;
    if m >= n {
        assert(s.take(m).skip(n) =~= s.skip(n).take(m - n));
        assert(s.take(m).take(n) =~= s.take(n));
    }
}

/// Reading a tagged field from a prefix: an error where the prefix ends
/// inside the field, the same field otherwise.
proof fn lemma_tagged_cut(s: Seq<u8>, tag: Seq<u8>, m: int)
    requires
        spec_tagged_text(s, tag) is Ok,
        0 <= m <= s.len(),
    ensures
        ({
            let (rest, v) = spec_tagged_text(s, tag)->Ok_0;
            let k = consumed(s, rest);
            &&& 0 <= k <= s.len()
            &&& rest == s.skip(k)
            &&& m < k ==> spec_tagged_text(s.take(m), tag) is Err
            &&& m >= k ==> spec_tagged_text(s.take(m), tag) == Ok::<_, ParseError>(
                (rest.take(m - k), v),
            )
        }),
{
    let (s1, _) = spec_expect_tag(s, tag)->Ok_0;
    let k1 = consumed(s, s1);
    lemma_tag_cut(s, tag, m);
    if m >= k1 {
        let (s2, len) = spec_read_u16_be(s1)->Ok_0;
        let k2 = consumed(s1, s2);
        lemma_u16_cut(s1, m - k1);
        if m - k1 >= k2 {
            let (s3, _) = spec_read_text(s2, len as nat)->Ok_0;
            lemma_text_cut(s2, len as nat, m - k1 - k2);
            assert(s3 =~= s.skip(consumed(s, s3)));
        }
    }
}

/// Skipping the preamble of a prefix: an error where the prefix ends inside
/// the preamble, the same rest otherwise.
proof fn lemma_preamble_cut(s: Seq<u8>, m: int)
    requires
        spec_skip_preamble(s) is Ok,
        0 <= m <= s.len(),
    ensures
        ({
            let rest = spec_skip_preamble(s)->Ok_0;
            let k = consumed(s, rest);
            &&& 0 <= k <= s.len()
            &&& rest == s.skip(k)
            &&& m < k ==> spec_skip_preamble(s.take(m)) is Err
            &&& m >= k ==> spec_skip_preamble(s.take(m)) == Ok::<_, ParseError>(rest.take(m - k))
        }),
{
    let (s1, len) = spec_read_u16_be(s)->Ok_0;
    let k1 = consumed(s, s1);
    lemma_u16_cut(s, m);
    if m >= k1 {
        let (s2, _) = spec_read_bytes(s1, len as nat)->Ok_0;
        let k2 = consumed(s1, s2);
        lemma_bytes_cut(s1, len as nat, m - k1);
        if m - k1 >= k2 {
            let (s3, _) = spec_read_u16_be(s2)->Ok_0;
            lemma_u16_cut(s2, m - k1 - k2);
            assert(s3 =~= s.skip(consumed(s, s3)));
        }
    }
}

/// Skipping twice is skipping the sum.
proof fn lemma_skip_twice(s: Seq<u8>, a: int, b: int)
    requires
        0 <= a,
        0 <= b,
        a + b <= s.len(),
    ensures
        s.skip(a).skip(b) == s.skip(a + b),
{
    assert(s.skip(a).skip(b) =~= s.skip(a + b));
}

/// The body of a file that parses is what stands behind its header.
proof fn lemma_walk_rest(file: Seq<u8>)
    requires
        spec_extract_info_seed(file) is Ok,
    ensures
        0 <= consumed(file, spec_body(file)) <= file.len(),
        spec_body(file) == file.skip(consumed(file, spec_body(file))),
{
    let s0 = spec_skip_preamble(file)->Ok_0;
    let (s1, _) = spec_tagged_text(s0, tag_design())->Ok_0;
    let (s2, _) = spec_tagged_text(s1, tag_device())->Ok_0;
    let (s3, _) = spec_tagged_text(s2, tag_date())->Ok_0;
    let (body, _) = spec_tagged_text(s3, tag_time())->Ok_0;
    let k0 = consumed(file, s0);
    let k1 = consumed(s0, s1);
    let k2 = consumed(s1, s2);
    let k3 = consumed(s2, s3);
    let k4 = consumed(s3, body);
    assert(0 <= k0 <= file.len() && s0 == file.skip(k0)) by {
        lemma_preamble_cut(file, 0);
    }
    assert(0 <= k1 <= s0.len() && s1 == s0.skip(k1)) by {
        lemma_tagged_cut(s0, tag_design(), 0);
    }
    assert(0 <= k2 <= s1.len() && s2 == s1.skip(k2)) by {
        lemma_tagged_cut(s1, tag_device(), 0);
    }
    assert(0 <= k3 <= s2.len() && s3 == s2.skip(k3)) by {
        lemma_tagged_cut(s2, tag_date(), 0);
    }
    assert(0 <= k4 <= s3.len() && body == s3.skip(k4)) by {
        lemma_tagged_cut(s3, tag_time(), 0);
    }
    lemma_skip_twice(file, k0, k1);
    lemma_skip_twice(file, k0 + k1, k2);
    lemma_skip_twice(file, k0 + k1 + k2, k3);
    lemma_skip_twice(file, k0 + k1 + k2 + k3, k4);
    assert(spec_body(file) == body);
}

/// Walking a prefix of a file that parses: an error where the prefix ends
/// inside the header, the same fields and what the prefix holds of the body
/// otherwise.
proof fn lemma_walk_cut(file: Seq<u8>, m: int)
    requires
        spec_extract_info_seed(file) is Ok,
        0 <= m <= file.len(),
    ensures
        ({
            let (design, device, date, body, time) = spec_extract_info_seed(file)->Ok_0;
            let k = consumed(file, body);
            &&& m < k ==> spec_extract_info_seed(file.take(m)) is Err
            &&& m >= k ==> spec_extract_info_seed(file.take(m)) == Ok::<RawFields, ParseError>(
                (design, device, date, body.take(m - k), time),
            )
        }),
{
    let s0 = spec_skip_preamble(file)->Ok_0;
    let (s1, design) = spec_tagged_text(s0, tag_design())->Ok_0;
    let (s2, device) = spec_tagged_text(s1, tag_device())->Ok_0;
    let (s3, date) = spec_tagged_text(s2, tag_date())->Ok_0;
    let (body, time) = spec_tagged_text(s3, tag_time())->Ok_0;
    let k0 = consumed(file, s0);
    let k1 = consumed(s0, s1);
    let k2 = consumed(s1, s2);
    let k3 = consumed(s2, s3);
    let k4 = consumed(s3, body);
    let t = file.take(m);
    assert(0 <= k0 && (m < k0 ==> spec_skip_preamble(t) is Err) && (m >= k0
        ==> spec_skip_preamble(t) == Ok::<_, ParseError>(s0.take(m - k0)))) by {
        lemma_preamble_cut(file, m);
    }
    if m >= k0 {
        let m0 = m - k0;
        assert(0 <= k1 && m0 <= s0.len() && (m0 < k1 ==> spec_tagged_text(
            s0.take(m0),
            tag_design(),
        ) is Err) && (m0 >= k1 ==> spec_tagged_text(s0.take(m0), tag_design()) == Ok::<
            _,
            ParseError,
        >((s1.take(m0 - k1), design)))) by {
            lemma_tagged_cut(s0, tag_design(), m0);
        }
        if m0 >= k1 {
            let m1 = m0 - k1;
            assert(0 <= k2 && m1 <= s1.len() && (m1 < k2 ==> spec_tagged_text(
                s1.take(m1),
                tag_device(),
            ) is Err) && (m1 >= k2 ==> spec_tagged_text(s1.take(m1), tag_device()) == Ok::<
                _,
                ParseError,
            >((s2.take(m1 - k2), device)))) by {
                lemma_tagged_cut(s1, tag_device(), m1);
            }
            if m1 >= k2 {
                let m2 = m1 - k2;
                assert(0 <= k3 && m2 <= s2.len() && (m2 < k3 ==> spec_tagged_text(
                    s2.take(m2),
                    tag_date(),
                ) is Err) && (m2 >= k3 ==> spec_tagged_text(s2.take(m2), tag_date()) == Ok::<
                    _,
                    ParseError,
                >((s3.take(m2 - k3), date)))) by {
                    lemma_tagged_cut(s2, tag_date(), m2);
                }
                if m2 >= k3 {
                    let m3 = m2 - k3;
                    assert(0 <= k4 && m3 <= s3.len() && (m3 < k4 ==> spec_tagged_text(
                        s3.take(m3),
                        tag_time(),
                    ) is Err) && (m3 >= k4 ==> spec_tagged_text(s3.take(m3), tag_time())
                        == Ok::<_, ParseError>((body.take(m3 - k4), time)))) by {
                        lemma_tagged_cut(s3, tag_time(), m3);
                    }
                }
            }
        }
    }
}

/// A file cut short anywhere inside its header does not parse: where the
/// whole file parses, none of its prefixes that end before the body begins
/// has raw fields, and none has a record.
pub proof fn lemma_truncated_header_is_rejected(file: Seq<u8>, m: int)
    requires
        spec_extract_info_seed(file) is Ok,
        0 <= m < file.len() - spec_body(file).len(),
    ensures
        spec_extract_info_seed(file.take(m)) is Err,
        spec_info(file.take(m)) is Err,
{
    lemma_walk_cut(file, m);
}

/// A text field of a prefix is a text field of the whole.
proof fn lemma_tagged_grow(s: Seq<u8>, tag: Seq<u8>, m: int)
    requires
        0 <= m <= s.len(),
        spec_tagged_text(s.take(m), tag) is Ok,
    ensures
        spec_tagged_text(s, tag) is Ok,
{
    let t = s.take(m);
    let n = tag.len() as int;
    assert(t.take(n) =~= s.take(n));
    let (s1, _) = spec_expect_tag(s, tag)->Ok_0;
    lemma_tag_cut(s, tag, m);
    let t1 = s1.take(m - n);
    let (s2, len) = spec_read_u16_be(s1)->Ok_0;
    lemma_u16_cut(s1, m - n);
    let t2 = s2.take(m - n - 2);
    assert(t2.take(len as int) =~= s2.take(len as int));
}

/// A preamble of a prefix is a preamble of the whole.
proof fn lemma_preamble_grow(s: Seq<u8>, m: int)
    requires
        0 <= m <= s.len(),
        spec_skip_preamble(s.take(m)) is Ok,
    ensures
        spec_skip_preamble(s) is Ok,
{
    let (s1, len) = spec_read_u16_be(s)->Ok_0;
    lemma_u16_cut(s, m);
    lemma_bytes_cut(s1, len as nat, m - 2);
}

/// Nothing that fails to parse has a prefix that parses: where a prefix of a
/// file has raw fields, the file has the same fields, the prefix holds its
/// whole header, and the body of the prefix is the start of its body.
pub proof fn lemma_prefix_parse_extends(file: Seq<u8>, m: int)
    requires
        0 <= m <= file.len(),
        spec_extract_info_seed(file.take(m)) is Ok,
    ensures
        spec_extract_info_seed(file) is Ok,
        ({
            let (design, device, date, body, time) = spec_extract_info_seed(file)->Ok_0;
            let k = consumed(file, body);
            &&& 0 <= k <= m
            &&& body == file.skip(k)
            &&& spec_extract_info_seed(file.take(m)) == Ok::<RawFields, ParseError>(
                (design, device, date, body.take(m - k), time),
            )
        }),
{
    let t = file.take(m);
    lemma_preamble_grow(file, m);
    let s0 = spec_skip_preamble(file)->Ok_0;
    let k0 = consumed(file, s0);
    lemma_preamble_cut(file, m);
    lemma_tagged_grow(s0, tag_design(), m - k0);
    let (s1, _) = spec_tagged_text(s0, tag_design())->Ok_0;
    let k1 = consumed(s0, s1);
    lemma_tagged_cut(s0, tag_design(), m - k0);
    lemma_tagged_grow(s1, tag_device(), m - k0 - k1);
    let (s2, _) = spec_tagged_text(s1, tag_device())->Ok_0;
    let k2 = consumed(s1, s2);
    lemma_tagged_cut(s1, tag_device(), m - k0 - k1);
    lemma_tagged_grow(s2, tag_date(), m - k0 - k1 - k2);
    let (s3, _) = spec_tagged_text(s2, tag_date())->Ok_0;
    let k3 = consumed(s2, s3);
    lemma_tagged_cut(s2, tag_date(), m - k0 - k1 - k2);
    lemma_tagged_grow(s3, tag_time(), m - k0 - k1 - k2 - k3);
    lemma_walk_cut(file, m);
    lemma_walk_rest(file);
}

/// A design text without a `;` has no options.
pub proof fn lemma_no_semicolon_no_options(design: Seq<char>)
    requires
        forall|i: int| 0 <= i < design.len() ==> design[i] != ';',
    ensures
        spec_options(design) == Seq::<Seq<char>>::empty(),
{
    lemma_split_without_separator(design, ';');
    assert(spec_options(design) =~= Seq::<Seq<char>>::empty());
}

/// A design text without a `.` is the design name as a whole.
pub proof fn lemma_top_design_without_dot(design: Seq<char>)
    requires
        forall|i: int| 0 <= i < design.len() ==> design[i] != '.',
    ensures
        spec_top_design(design) == design,
{
    lemma_split_without_separator(design, '.');
}

/// The design name is the text in front of the first `.`.
pub proof fn lemma_top_design_before_first_dot(design: Seq<char>, i: int)
    requires
        0 <= i < design.len(),
        design[i] == '.',
        forall|j: int| 0 <= j < i ==> design[j] != '.',
    ensures
        spec_top_design(design) == design.take(i),
{
    lemma_split_first(design, '.', i);
}

/// The options, joined by `;`, are the text behind the first `;`, and no
/// option holds a `;`.
pub proof fn lemma_options_follow_first_semicolon(design: Seq<char>, i: int)
    requires
        0 <= i < design.len(),
        design[i] == ';',
        forall|j: int| 0 <= j < i ==> design[j] != ';',
    ensures
        join(spec_options(design), ';') == design.skip(i + 1),
        forall|k: int, n: int|
            0 <= k < spec_options(design).len() && 0 <= n < spec_options(design)[k].len()
                ==> spec_options(design)[k][n] != ';',
{
    lemma_split_tail(design, ';', i);
    lemma_split_segments(design, ';');
}

} // verus!
