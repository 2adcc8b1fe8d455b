//! Keys are bytes; queries and results are strings. This module holds what
//! passes between the two: the test whether one byte string occurs in
//! another, which is proved, and three functions of std's strings that the
//! verifier knows nothing of, whose contracts are taken on trust.

use vstd::prelude::*;
use vstd::utf8::{
    decode_utf8, decode_utf8_encode_utf8, decode_utf8_split, encode_utf8, encode_utf8_decode_utf8,
    encode_utf8_valid_utf8, is_char_boundary, is_char_boundary_iff_not_is_continuation_byte, is_continuation_byte,
    length_of_first_scalar, pop_first_scalar, valid_first_scalar, valid_utf8, valid_utf8_concat, valid_utf8_split,
};

verus! {

/// The lowercase form of `text` as `str::to_lowercase` gives it, by the
/// Unicode lowercase mapping of each character. It may differ in length from
/// `text`, and does not depend on a locale.
pub uninterp spec fn lowercase(text: Seq<char>) -> Seq<char>;

/// Whether bytes are a text, that is, valid UTF-8, as a predicate.
pub open spec fn is_text() -> spec_fn(Seq<u8>) -> bool {
    |bytes: Seq<u8>| valid_utf8(bytes)
}

/// The text that bytes encode, as a function.
pub open spec fn text_of() -> spec_fn(Seq<u8>) -> Seq<char> {
    |bytes: Seq<u8>| decode_utf8(bytes)
}

/// `str::to_lowercase`.
#[verifier::external_body]
pub(crate) fn to_lowercase(text: &str) -> (r: String)
    ensures
        r@ == lowercase(text@),
{
    text.to_lowercase()
}

/// `String::from_utf8`: the string that `bytes` encode, if they are valid
/// UTF-8.
#[verifier::external_body]
pub(crate) fn decode_key(bytes: Vec<u8>) -> (r: Option<String>)
    ensures
        r is Some <==> valid_utf8(bytes@),
        r matches Some(text) ==> text@ == decode_utf8(bytes@),
{
    match String::from_utf8(bytes) {
        Ok(text) => Some(text),
        Err(_) => None,
    }
}

/// `core::str::from_utf8`, for its verdict only: whether `bytes` are valid
/// UTF-8.
#[verifier::external_body]
pub(crate) fn is_utf8(bytes: &[u8]) -> (r: bool)
    ensures
        r == valid_utf8(bytes@),
{
    std::str::from_utf8(bytes).is_ok()
}

/// Whether `needle` stands in `hay` at the position `at`.
pub open spec fn occurs_at<T>(needle: Seq<T>, hay: Seq<T>, at: int) -> bool {
    0 <= at && at + needle.len() <= hay.len() && hay.subrange(at, at + needle.len()) == needle
}

/// Whether `needle` occurs in `hay` as a run of adjacent items. The empty
/// needle occurs in every `hay`.
pub open spec fn occurs_in<T>(needle: Seq<T>, hay: Seq<T>) -> bool {
    exists|at: int| occurs_at(needle, hay, at)
}

/// Where one text starts with another, the first ends at a boundary between
/// two characters of the second.
pub proof fn lemma_prefix_ends_at_boundary(prefix: Seq<u8>, text: Seq<u8>)
    requires
        valid_utf8(prefix),
        valid_utf8(text),
        prefix.is_prefix_of(text),
    ensures
        is_char_boundary(text, prefix.len() as int),
    decreases prefix.len(),
{
    if prefix.len() > 0 {
        assert(valid_first_scalar(prefix));
        assert(valid_first_scalar(text));
        assert(prefix[0] == text[0]);
        let width = length_of_first_scalar(prefix);
        assert(width == length_of_first_scalar(text));
        let short = pop_first_scalar(prefix);
        let long = pop_first_scalar(text);
        assert(short =~= long.subrange(0, short.len() as int));
        lemma_prefix_ends_at_boundary(short, long);
    }
}

/// The bytes of two texts joined are the bytes of the first, then those of
/// the second.
pub proof fn lemma_encode_concat(first: Seq<char>, second: Seq<char>)
    ensures
        encode_utf8(first + second) == encode_utf8(first) + encode_utf8(second),
{
    let head = encode_utf8(first);
    let tail = encode_utf8(second);
    let joined = head + tail;
    encode_utf8_valid_utf8(first);
    encode_utf8_valid_utf8(second);
    valid_utf8_concat(head, tail);
    assert(head =~= joined.subrange(0, head.len() as int));
    assert(tail =~= joined.subrange(head.len() as int, joined.len() as int));
    lemma_prefix_ends_at_boundary(head, joined);
    decode_utf8_split(joined, head.len() as int);
    encode_utf8_decode_utf8(first);
    encode_utf8_decode_utf8(second);
    assert(decode_utf8(joined) =~= first + second);
    decode_utf8_encode_utf8(joined);
}

/// A text starts with another if and only if its bytes start with the bytes
/// of the other.
pub proof fn lemma_starts_with_text(prefix: Seq<char>, bytes: Seq<u8>)
    requires
        valid_utf8(bytes),
    ensures
        encode_utf8(prefix).is_prefix_of(bytes) <==> prefix.is_prefix_of(decode_utf8(bytes)),
{
    let start = encode_utf8(prefix);
    let text = decode_utf8(bytes);
    let n = start.len() as int;
    encode_utf8_valid_utf8(prefix);
    encode_utf8_decode_utf8(prefix);
    decode_utf8_encode_utf8(bytes);
    if start.is_prefix_of(bytes) {
        lemma_prefix_ends_at_boundary(start, bytes);
        decode_utf8_split(bytes, n);
        assert(bytes.subrange(0, n) =~= start);
        assert(prefix =~= text.subrange(0, prefix.len() as int));
    }
    if prefix.is_prefix_of(text) {
        let rest = text.skip(prefix.len() as int);
        assert(text =~= prefix + rest);
        lemma_encode_concat(prefix, rest);
        assert(start =~= bytes.subrange(0, n));
    }
}

/// One text occurs in another if and only if its bytes occur in the bytes of
/// the other: a run of bytes that is a text starts and ends between two
/// characters.
pub proof fn lemma_occurs_in_text(needle: Seq<char>, hay: Seq<char>)
    ensures
        occurs_in(encode_utf8(needle), encode_utf8(hay)) <==> occurs_in(needle, hay),
{
    let small = encode_utf8(needle);
    let large = encode_utf8(hay);
    encode_utf8_valid_utf8(needle);
    encode_utf8_valid_utf8(hay);
    encode_utf8_decode_utf8(needle);
    encode_utf8_decode_utf8(hay);
    if occurs_in(needle, hay) {
        let at = choose|at: int| occurs_at(needle, hay, at);
        let front = hay.take(at);
        let back = hay.skip(at + needle.len());
        assert(hay =~= front + needle + back);
        lemma_encode_concat(front + needle, back);
        lemma_encode_concat(front, needle);
        let start = encode_utf8(front).len() as int;
        assert(large.subrange(start, start + small.len()) =~= small);
        assert(occurs_at(small, large, start));
    }
    if occurs_in(small, large) {
        let start = choose|start: int| occurs_at(small, large, start);
        if small.len() == 0 {
            assert(hay.subrange(0, 0) =~= needle);
            assert(occurs_at(needle, hay, 0));
        } else {
            assert(valid_first_scalar(small));
            assert(large[start] == large.subrange(start, start + small.len())[0]);
            assert(!is_continuation_byte(large[start]));
            is_char_boundary_iff_not_is_continuation_byte(large, start);
            valid_utf8_split(large, start);
            decode_utf8_split(large, start);
            let front = large.subrange(0, start);
            let rest = large.subrange(start, large.len() as int);
            assert(small =~= rest.subrange(0, small.len() as int));
            lemma_prefix_ends_at_boundary(small, rest);
            valid_utf8_split(rest, small.len() as int);
            decode_utf8_split(rest, small.len() as int);
            let back = rest.subrange(small.len() as int, rest.len() as int);
            assert(hay =~= decode_utf8(front) + needle + decode_utf8(back));
            let at = decode_utf8(front).len() as int;
            assert(hay.subrange(at, at + needle.len()) =~= needle);
            assert(occurs_at(needle, hay, at));
        }
    }
}

/// Decides whether `needle` stands in `hay` at `at`.
fn matches_at(hay: &[u8], needle: &[u8], at: usize) -> (r: bool)
    requires
        at + needle@.len() <= hay@.len(),
    ensures
        r == occurs_at(needle@, hay@, at as int),
{
    let end: usize = hay.len();
    let mut i: usize = 0;
    while i < needle.len()
        invariant
            i <= needle@.len(),
            at + needle@.len() <= hay@.len() == end,
            forall|j: int| 0 <= j < i ==> hay@[at + j] == needle@[j],
        decreases needle@.len() - i,
    {
        if hay[at + i] != needle[i] {
            assert(hay@.subrange(at as int, at + needle@.len())[i as int] == hay@[at + i]);
            return false;
        }
        i += 1;
    }
    assert(hay@.subrange(at as int, at + needle@.len()) =~= needle@);
    true
}

/// Decides whether `needle` occurs in `hay`.
pub fn contains_bytes(hay: &[u8], needle: &[u8]) -> (r: bool)
    ensures
        r == occurs_in(needle@, hay@),
{
    if needle.len() > hay.len() {
        return false;
    }
    let last: usize = hay.len() - needle.len();
    let mut at: usize = 0;
    loop
        invariant
            last == hay@.len() - needle@.len(),
            at <= last,
            forall|j: int| 0 <= j < at ==> !occurs_at(needle@, hay@, j),
        decreases last - at,
    {
        if matches_at(hay, needle, at) {
            return true;
        }
        if at == last {
            return false;
        }
        at += 1;
    }
}

} // verus!
