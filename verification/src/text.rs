//! Text helpers: characters of a string, splitting, joining, and the removal
//! of the final character of a header field.

use crate::error::ParseError;
use vstd::prelude::*;
use vstd::string::*;
use vstd::utf8::*;

verus! {

/// Appends one character to a string.
///
/// Trusted: stands for `String::push`, which appends the given character to
/// the end of the string and changes nothing else.
#[verifier::external_body]
pub(crate) fn push_char(s: &mut String, c: char)
    ensures
        final(s)@ == old(s)@.push(c),
{
    s.push(c)
}

/// Reads a run of bytes as UTF-8 text.
///
/// Trusted: stands for `std::str::from_utf8`, which succeeds exactly on
/// well-formed UTF-8 and then yields a string slice over the very same bytes.
#[verifier::external_body]
pub(crate) fn utf8_text(bytes: &[u8]) -> (r: Option<&str>)
    ensures
        r is Some <==> valid_utf8(bytes@),
        r is Some ==> r->0.spec_bytes() == bytes@,
{
    match std::str::from_utf8(bytes) {
        Ok(s) => Some(s),
        Err(_) => None,
    }
}

/// The characters of a string, in order.
pub fn chars_of(s: &str) -> (v: Vec<char>)
    ensures
        v@ == s@,
{
    broadcast use group_string_axioms;
    let mut v: Vec<char> = Vec::new();
    for c in it: s.chars()
        invariant
            v@ == it.seq().take(it.index() as int),
            it.seq() == s@,
    {
        v.push(c);
    }
    v
}

/// The views of a run of strings.
pub open spec fn texts(v: Seq<String>) -> Seq<Seq<char>> {
    Seq::new(v.len(), |i: int| v[i]@)
}

/// The segments of `s` that lie between the occurrences of `sep`: one more
/// segment than there are separators, empty segments included.
pub open spec fn split(s: Seq<char>, sep: char) -> Seq<Seq<char>>
    decreases s.len(),
{
    if s.len() == 0 {
        seq![Seq::<char>::empty()]
    } else {
        let front = split(s.drop_last(), sep);
        if s.last() == sep {
            front.push(Seq::<char>::empty())
        } else {
            front.drop_last().push(front.last().push(s.last()))
        }
    }
}

/// The segments joined into one text, with `sep` between neighbours.
pub open spec fn join(parts: Seq<Seq<char>>, sep: char) -> Seq<char>
    decreases parts.len(),
{
    if parts.len() == 0 {
        Seq::<char>::empty()
    } else if parts.len() == 1 {
        parts[0]
    } else {
        join(parts.drop_last(), sep).push(sep) + parts.last()
    }
}

/// A field without its final character, where something is left in front of it.
pub open spec fn spec_trim_zero(s: Seq<char>) -> Result<Seq<char>, ParseError> {
    if s.len() < 2 {
        Err(ParseError::EmptyField)
    } else {
        Ok(s.drop_last())
    }
}

/// A split always has a first segment.
pub proof fn lemma_split_nonempty(s: Seq<char>, sep: char)
    ensures
        split(s, sep).len() >= 1,
    decreases s.len(),
{
    if s.len() > 0 {
        lemma_split_nonempty(s.drop_last(), sep);
    }
}

/// A text without the separator is its own only segment.
pub proof fn lemma_split_without_separator(s: Seq<char>, sep: char)
    requires
        forall|i: int| 0 <= i < s.len() ==> s[i] != sep,
    ensures
        split(s, sep) == seq![s],
    decreases s.len(),
{
    if s.len() == 0 {
        assert(s =~= Seq::<char>::empty());
    } else {
        lemma_split_without_separator(s.drop_last(), sep);
        assert(s.drop_last().push(s.last()) =~= s);
        assert(split(s, sep) =~= seq![s]);
    }
}

/// A text that holds the separator has at least two segments.
pub proof fn lemma_split_with_separator(s: Seq<char>, sep: char, i: int)
    requires
        0 <= i < s.len(),
        s[i] == sep,
    ensures
        split(s, sep).len() >= 2,
    decreases s.len(),
{
    lemma_split_nonempty(s.drop_last(), sep);
    if s.last() != sep {
        lemma_split_with_separator(s.drop_last(), sep, i);
    }
}

/// The first segment of a text is what stands in front of the first
/// separator.
pub proof fn lemma_split_first(s: Seq<char>, sep: char, i: int)
    requires
        0 <= i < s.len(),
        s[i] == sep,
        forall|j: int| 0 <= j < i ==> s[j] != sep,
    ensures
        split(s, sep)[0] == s.take(i),
    decreases s.len(),
{
    if i == s.len() - 1 {
        assert(s.drop_last() =~= s.take(i));
        lemma_split_without_separator(s.take(i), sep);
    } else {
        lemma_split_first(s.drop_last(), sep, i);
        lemma_split_with_separator(s.drop_last(), sep, i);
        assert(s.drop_last().take(i) =~= s.take(i));
    }
}

/// No segment of a split holds the separator.
pub proof fn lemma_split_segments(s: Seq<char>, sep: char)
    ensures
        forall|k: int, i: int|
            0 <= k < split(s, sep).len() && 0 <= i < split(s, sep)[k].len() ==> split(
                s,
                sep,
            )[k][i] != sep,
    decreases s.len(),
{
    if s.len() > 0 {
        lemma_split_segments(s.drop_last(), sep);
        lemma_split_nonempty(s.drop_last(), sep);
    }
}

/// Joining the segments of a split with the separator gives the text back.
pub proof fn lemma_join_split(s: Seq<char>, sep: char)
    ensures
        join(split(s, sep), sep) == s,
    decreases s.len(),
{
    if s.len() > 0 {
        let t = s.drop_last();
        let front = split(t, sep);
        let parts = split(s, sep);
        lemma_join_split(t, sep);
        lemma_split_nonempty(t, sep);
        assert(t.push(s.last()) =~= s);
        if s.last() == sep {
            assert(parts.drop_last() =~= front);
            assert(join(parts, sep) =~= s);
        } else if front.len() == 1 {
            assert(join(parts, sep) =~= s);
        } else {
            assert(parts.drop_last() =~= front.drop_last());
            assert(join(parts, sep) =~= s);
        }
    }
}

/// The segments after the first one, joined with the separator, are the text
/// behind the first separator.
pub proof fn lemma_split_tail(s: Seq<char>, sep: char, i: int)
    requires
        0 <= i < s.len(),
        s[i] == sep,
        forall|j: int| 0 <= j < i ==> s[j] != sep,
    ensures
        join(split(s, sep).skip(1), sep) == s.skip(i + 1),
    decreases s.len(),
{
    let t = s.drop_last();
    let front = split(t, sep);
    let parts = split(s, sep);
    lemma_split_nonempty(t, sep);
    if i == s.len() - 1 {
        assert(t =~= s.take(i));
        lemma_split_without_separator(t, sep);
        assert(parts.skip(1) =~= seq![Seq::<char>::empty()]);
        assert(join(parts.skip(1), sep) =~= s.skip(i + 1));
    } else {
        lemma_split_tail(t, sep, i);
        lemma_split_with_separator(t, sep, i);
        assert(t.skip(i + 1).push(s.last()) =~= s.skip(i + 1));
        if s.last() == sep {
            assert(parts.skip(1).drop_last() =~= front.skip(1));
            assert(join(parts.skip(1), sep) =~= s.skip(i + 1));
        } else if front.len() == 2 {
            assert(parts.skip(1) =~= seq![front.last().push(s.last())]);
            assert(front.skip(1) =~= seq![front.last()]);
            assert(join(parts.skip(1), sep) =~= s.skip(i + 1));
        } else {
            assert(parts.skip(1).drop_last() =~= front.skip(1).drop_last());
            assert(parts.skip(1).last() == front.last().push(s.last()));
            assert(front.skip(1).last() == front.last());
            assert(join(parts.skip(1), sep) =~= s.skip(i + 1));
        }
    }
}

/// Splits `s` at every occurrence of `sep`.
pub fn split_text(s: &str, sep: char) -> (parts: Vec<String>)
    ensures
        texts(parts@) == split(s@, sep),
{
    let chars = chars_of(s);
    let mut parts: Vec<String> = Vec::new();
    let mut cur = String::new();
    let mut i: usize = 0;
    assert(s@.take(0) =~= Seq::<char>::empty());
    assert(texts(parts@).push(cur@) =~= seq![Seq::<char>::empty()]);
    while i < chars.len()
        invariant
            i <= chars.len(),
            chars@ == s@,
            split(s@.take(i as int), sep) == texts(parts@).push(cur@),
        decreases chars.len() - i,
    {
        let c = chars[i];
        let ghost before = texts(parts@).push(cur@);
        proof {
            let t = s@.take(i + 1);
            assert(t.drop_last() =~= s@.take(i as int));
            assert(t.last() == c);
            assert(before.drop_last() =~= texts(parts@));
        }
        if c == sep {
            parts.push(cur);
            cur = String::new();
            assert(texts(parts@) =~= before);
        } else {
            push_char(&mut cur, c);
        }
        i += 1;
    }
    assert(s@.take(i as int) =~= s@);
    let ghost done = texts(parts@).push(cur@);
    parts.push(cur);
    assert(texts(parts@) =~= done);
    parts
}

/// Joins the strings into one, with `sep` between neighbours.
pub fn join_texts(parts: &Vec<String>, sep: char) -> (out: String)
    ensures
        out@ == join(texts(parts@), sep),
{
    let mut out = String::new();
    let mut i: usize = 0;
    assert(texts(parts@).take(0) =~= Seq::<Seq<char>>::empty());
    while i < parts.len()
        invariant
            i <= parts.len(),
            out@ == join(texts(parts@).take(i as int), sep),
        decreases parts.len() - i,
    {
        proof {
            let t = texts(parts@).take(i + 1);
            assert(t.drop_last() =~= texts(parts@).take(i as int));
            assert(t.last() == parts@[i as int]@);
            if i == 0 {
                assert(Seq::<char>::empty() + parts@[0]@ =~= parts@[0]@);
            }
        }
        if i > 0 {
            push_char(&mut out, sep);
        }
        out.append(parts[i].as_str());
        i += 1;
    }
    assert(texts(parts@).take(i as int) =~= texts(parts@));
    out
}

/// Removes the final character of a header field, the NUL that the format
/// puts there.
///
/// A field with nothing in front of its final character is refused: the
/// result is never an empty string.
pub fn trim_zero(input: String) -> (r: Result<String, ParseError>)
    ensures
        match r {
            Ok(s) => spec_trim_zero(input@) == Ok::<_, ParseError>(s@),
            Err(e) => spec_trim_zero(input@) == Err::<Seq<char>, _>(e),
        },
{
    let n: usize = input.as_str().unicode_len();
    if n < 2 {
        return Err(ParseError::EmptyField);
    }
    let kept = input.as_str().substring_char(0, n - 1);
    assert(input@.subrange(0, n - 1) =~= input@.drop_last());
    Ok(String::from_str(kept))
}

} // verus!
