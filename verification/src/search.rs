//! The queries on a store: the names that start with a prefix, the names that
//! contain a text whatever its case, and the walk over all keys that warms the
//! store up. Each takes an intact set and reads its keys in order.

use crate::store::{between, set_intact, set_keys, stream_all, stream_next, stream_range, stream_rest, KeyStream};
use crate::text::{
    contains_bytes, decode_key, is_text, lemma_occurs_in_text, lowercase, occurs_in, text_of, to_lowercase,
};
use vstd::prelude::*;
use vstd::slice::slice_to_vec;
use vstd::utf8::{decode_utf8, encode_utf8, valid_utf8};

verus! {

/// A query that cannot be answered. No query on a store in memory fails:
/// the type stands for a store that cannot be walked to its end.
#[derive(Debug)]
pub enum SearchError {
    Traversal,
}

/// Why a store could not be warmed up.
#[derive(Debug)]
pub enum PreloadError {
    /// The store holds more keys than a `usize` counts.
    CountOverflow,
}

/// The bytes of U+10FFFF, the highest character, in UTF-8.
pub open spec fn max_char_bytes() -> Seq<u8> {
    seq![0xF4u8, 0x8Fu8, 0xBFu8, 0xBFu8]
}

/// The bound below which the keys that extend `prefix` lie: `prefix` with the
/// highest character appended.
pub open spec fn prefix_upper(prefix: Seq<u8>) -> Seq<u8> {
    prefix + max_char_bytes()
}

/// The keys among `keys` that are valid UTF-8, decoded, in the same order.
pub open spec fn decoded(keys: Seq<Seq<u8>>) -> Seq<Seq<char>> {
    keys.filter(is_text()).map_values(text_of())
}

/// The first `max` items of `items`, or all of them if there are fewer.
pub open spec fn capped<T>(items: Seq<T>, max: nat) -> Seq<T> {
    if items.len() <= max {
        items
    } else {
        items.take(max as int)
    }
}

/// What a query returns on a set that holds `keys`: of the keys that
/// `wanted` holds of, in the order of the set, those that are valid UTF-8,
/// decoded, up to `max` of them.
pub open spec fn hits(keys: Seq<Seq<u8>>, wanted: spec_fn(Seq<u8>) -> bool, max: nat) -> Seq<
    Seq<char>,
> {
    capped(decoded(keys.filter(wanted)), max)
}

/// What a prefix query returns on a set that holds `keys`: the keys from
/// `prefix` on that come before `prefix_upper(prefix)`, decoded, up to `max`
/// of them. A key that is not valid UTF-8 is passed over.
pub open spec fn prefix_matches(keys: Seq<Seq<u8>>, prefix: Seq<u8>, max: nat) -> Seq<Seq<char>> {
    hits(keys, between(prefix, prefix_upper(prefix)), max)
}

/// Whether a key matches a substring query: it is valid UTF-8 and, both in
/// lowercase, the query occurs in its text.
pub open spec fn key_contains(key: Seq<u8>, query: Seq<char>) -> bool {
    valid_utf8(key) && occurs_in(lowercase(query), lowercase(decode_utf8(key)))
}

/// The test of `key_contains` for one query, as a predicate on keys.
pub open spec fn containing(query: Seq<char>) -> spec_fn(Seq<u8>) -> bool {
    |key: Seq<u8>| key_contains(key, query)
}

/// What a substring query returns on a set that holds `keys`: the keys that
/// contain `query` whatever the case of either, decoded, in the order of the
/// set, up to `max` of them.
pub open spec fn substring_matches(keys: Seq<Seq<u8>>, query: Seq<char>, max: nat) -> Seq<
    Seq<char>,
> {
    hits(keys, containing(query), max)
}

/// Decoding goes key by key: a key at the end adds its text if it is valid
/// UTF-8, and nothing otherwise.
pub proof fn lemma_decoded_push(keys: Seq<Seq<u8>>, key: Seq<u8>)
    ensures
        decoded(keys.push(key)) == if valid_utf8(key) {
            decoded(keys).push(decode_utf8(key))
        } else {
            decoded(keys)
        },
{
    keys.lemma_filter_push(key, is_text());
    if valid_utf8(key) {
        keys.filter(is_text()).lemma_push_map_commute(text_of(), key);
    }
}

/// Decoding a run of keys gives the texts of its front, then those of its
/// back.
pub proof fn lemma_decoded_concat(front: Seq<Seq<u8>>, back: Seq<Seq<u8>>)
    ensures
        decoded(front + back) == decoded(front) + decoded(back),
{
    Seq::filter_distributes_over_add(front, back, is_text());
    assert(decoded(front + back) =~= decoded(front) + decoded(back));
}

/// The names in the set that start with `prefix`, in the order of the set, up
/// to `max_results` of them. The range that is read ends below `prefix`
/// followed by the highest character, U+10FFFF.
#[must_use]
pub fn prefix_search(set: &fst::Set<Vec<u8>>, prefix: &str, max_results: usize) -> (results: Vec<
    String,
>)
    requires
        set_intact(*set),
    ensures
        results.deep_view() == prefix_matches(
            set_keys(*set),
            encode_utf8(prefix@),
            max_results as nat,
        ),
        results@.len() <= max_results,
{
    let lower = prefix.as_bytes();
    let mut upper = slice_to_vec(lower);
    upper.push(0xF4u8);
    upper.push(0x8Fu8);
    upper.push(0xBFu8);
    upper.push(0xBFu8);
    assert(upper@ =~= prefix_upper(lower@));
    let mut stream = stream_range(set, lower, upper.as_slice());
    collect(&mut stream, max_results)
}

/// Reads `stream` until it ends or `max_results` keys have been decoded, and
/// returns their texts.
fn collect(stream: &mut KeyStream<'_>, max_results: usize) -> (results: Vec<String>)
    ensures
        results.deep_view() == capped(decoded(stream_rest(*old(stream))), max_results as nat),
        results@.len() <= max_results,
{
    let ghost all = stream_rest(*stream);
    let ghost mut seen: Seq<Seq<u8>> = Seq::empty();
    let mut results: Vec<String> = Vec::new();
    assert(seen + stream_rest(*stream) =~= all);
    assert(results.deep_view() =~= decoded(seen)) by {
        reveal(Seq::filter);
    }
    loop
        invariant_except_break
            seen + stream_rest(*stream) == all,
            results.deep_view() == decoded(seen),
        invariant
            results@.len() <= max_results,
        ensures
            results.deep_view() == capped(decoded(all), max_results as nat),
            results@.len() <= max_results,
        decreases stream_rest(*stream).len(),
    {
        let ghost rest = stream_rest(*stream);
        match stream_next(stream) {
            None => {
                assert(seen =~= all);
                break ;
            },
            Some(key) => {
                if results.len() >= max_results {
                    proof {
                        lemma_decoded_concat(seen, rest);
                        assert(decoded(all).take(max_results as int) =~= decoded(seen));
                    }
                    break ;
                }
                proof {
                    lemma_decoded_push(seen, key@);
                    assert(seen.push(key@) + rest.drop_first() =~= seen + rest);
                    seen = seen.push(key@);
                }
                let ghost before = results.deep_view();
                match decode_key(key) {
                    Some(text) => {
                        results.push(text);
                        assert(results.deep_view() =~= before.push(text@));
                    },
                    None => {},
                }
            },
        }
    }
    results
}

/// The names in the set that contain `substring`, whatever the case of
/// either, in the order of the set, up to `max_results` of them. Every key of
/// the set is read until that many are found.
pub fn substring_search(set: &fst::Set<Vec<u8>>, substring: &str, max_results: usize) -> (r: Result<
    Vec<String>,
    SearchError,
>)
    requires
        set_intact(*set),
    ensures
        r is Ok,
        r matches Ok(results) ==> results.deep_view() == substring_matches(
            set_keys(*set),
            substring@,
            max_results as nat,
        ) && results@.len() <= max_results,
{
    let query = to_lowercase(substring);
    let mut stream = stream_all(set);
    let ghost all = set_keys(*set);
    let ghost wanted = containing(substring@);
    let ghost mut seen: Seq<Seq<u8>> = Seq::empty();
    let mut results: Vec<String> = Vec::new();
    assert(seen + stream_rest(stream) =~= all);
    assert(results.deep_view() =~= decoded(seen.filter(wanted))) by {
        reveal(Seq::filter);
    }
    loop
        invariant_except_break
            seen + stream_rest(stream) == all,
            results.deep_view() == decoded(seen.filter(wanted)),
        invariant
            wanted == containing(substring@),
            query@ == lowercase(substring@),
            results@.len() <= max_results,
        ensures
            results.deep_view() == capped(decoded(all.filter(wanted)), max_results as nat),
            results@.len() <= max_results,
        decreases stream_rest(stream).len(),
    {
        let ghost rest = stream_rest(stream);
        match stream_next(&mut stream) {
            None => {
                assert(seen =~= all);
                break ;
            },
            Some(key) => {
                if results.len() >= max_results {
                    proof {
                        Seq::filter_distributes_over_add(seen, rest, wanted);
                        lemma_decoded_concat(seen.filter(wanted), rest.filter(wanted));
                        assert(decoded(all.filter(wanted)).take(max_results as int) =~= decoded(
                            seen.filter(wanted),
                        ));
                    }
                    break ;
                }
                proof {
                    seen.lemma_filter_push(key@, wanted);
                    lemma_decoded_push(seen.filter(wanted), key@);
                    assert(seen.push(key@) + rest.drop_first() =~= seen + rest);
                    seen = seen.push(key@);
                }
                let ghost before = results.deep_view();
                match decode_key(key) {
                    Some(text) => {
                        let folded = to_lowercase(text.as_str());
                        proof {
                            lemma_occurs_in_text(query@, folded@);
                        }
                        if contains_bytes(folded.as_str().as_bytes(), query.as_str().as_bytes()) {
                            results.push(text);
                            assert(results.deep_view() =~= before.push(text@));
                        }
                    },
                    None => {},
                }
            },
        }
    }
    Ok(results)
}

/// Walks over all keys of the set, so that the memory that holds it has been
/// read once, and returns how many keys there are. The set is borrowed and
/// left as it was: a query after the walk returns what it returned before.
pub fn preload_fst_set(set: &fst::Set<Vec<u8>>) -> (r: Result<usize, PreloadError>)
    requires
        set_intact(*set),
    ensures
        match r {
            Ok(count) => count == set_keys(*set).len(),
            Err(PreloadError::CountOverflow) => set_keys(*set).len() > usize::MAX,
        },
{
    let mut stream = stream_all(set);
    let mut count: usize = 0;
    loop
        invariant
            count + stream_rest(stream).len() == set_keys(*set).len(),
        decreases stream_rest(stream).len(),
    {
        match stream_next(&mut stream) {
            None => {
                return Ok(count);
            },
            Some(_) => {
                if count == usize::MAX {
                    return Err(PreloadError::CountOverflow);
                }
                count += 1;
            },
        }
    }
}

} // verus!
