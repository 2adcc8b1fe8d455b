//! What holds of the keys of a store and of the answers to queries, whatever
//! the text, the keys and the query. Each statement is proved from the
//! definitions that the contracts of the library use.

use crate::builder::{index_keys, names_of};
use crate::keys::{lemma_lex_lt_irreflexive, lemma_lex_lt_skip, lex_le, lex_lt, strictly_increasing};
use crate::search::{
    containing, decoded, hits, key_contains, lemma_decoded_concat, lemma_decoded_push, max_char_bytes,
    prefix_matches, prefix_upper, substring_matches,
};
use crate::sorting::{key_order, lemma_key_order_total, lemma_without_repeats_contains};
use crate::store::between;
use crate::text::{is_text, lemma_prefix_ends_at_boundary, lowercase};
use vstd::prelude::*;
use vstd::seq_lib::to_multiset_contains;
use vstd::utf8::{
    decode_utf8, decode_utf8_encode_utf8, encode_scalar, encode_utf8, encode_utf8_valid_utf8,
    last_continuation_byte, leading_byte_width_4, second_last_continuation_byte, third_last_continuation_byte,
    valid_first_scalar, valid_utf8, valid_utf8_split,
};

verus! {

/// A strictly increasing run holds no key twice.
pub proof fn lemma_increasing_distinct(keys: Seq<Seq<u8>>)
    requires
        strictly_increasing(keys),
    ensures
        keys.no_duplicates(),
{
    assert forall|i: int, j: int| 0 <= i < keys.len() && 0 <= j < keys.len() && i != j implies keys[i]
        != keys[j] by {
        lemma_lex_lt_irreflexive(keys[i]);
        if i < j {
            assert(lex_lt(keys[i], keys[j]));
        } else {
            assert(lex_lt(keys[j], keys[i]));
        }
    }
}

/// The keys of the store for a text are strictly increasing and hold no key
/// twice, whatever the order of the lines and however often a name occurs;
/// and a byte string is a key of the store if and only if it is a name of
/// the text.
pub proof fn lemma_index_keys(text: Seq<u8>)
    ensures
        strictly_increasing(index_keys(names_of(text))),
        index_keys(names_of(text)).no_duplicates(),
        forall|key: Seq<u8>| #[trigger]
            index_keys(names_of(text)).contains(key) <==> names_of(text).contains(key),
{
    let names = names_of(text);
    let sorted = names.sort_by(key_order());
    crate::builder::lemma_index_keys_increasing(names);
    lemma_increasing_distinct(index_keys(names));
    lemma_key_order_total();
    names.lemma_sort_by_ensures(key_order());
    assert forall|key: Seq<u8>| #[trigger]
        index_keys(names).contains(key) <==> names.contains(key) by {
        lemma_without_repeats_contains(sorted, key);
        to_multiset_contains(sorted, key);
        to_multiset_contains(names, key);
    }
}

/// Two predicates that agree on every key of a run keep the same keys of it.
pub proof fn lemma_filter_agree(
    keys: Seq<Seq<u8>>,
    first: spec_fn(Seq<u8>) -> bool,
    second: spec_fn(Seq<u8>) -> bool,
)
    requires
        forall|i: int| 0 <= i < keys.len() ==> first(#[trigger] keys[i]) == second(keys[i]),
    ensures
        keys.filter(first) == keys.filter(second),
    decreases keys.len(),
{
    reveal(Seq::filter);
    if keys.len() > 0 {
        let front = keys.drop_last();
        assert forall|i: int| 0 <= i < front.len() implies first(#[trigger] front[i]) == second(
            front[i],
        ) by {
            assert(front[i] == keys[i]);
        }
        lemma_filter_agree(front, first, second);
        assert(first(keys[keys.len() - 1]) == second(keys[keys.len() - 1]));
    }
}

/// The keys that a predicate keeps of a strictly increasing run are strictly
/// increasing.
pub proof fn lemma_filter_increasing(keys: Seq<Seq<u8>>, wanted: spec_fn(Seq<u8>) -> bool)
    requires
        strictly_increasing(keys),
    ensures
        strictly_increasing(keys.filter(wanted)),
    decreases keys.len(),
{
    reveal(Seq::filter);
    if keys.len() > 0 {
        let front = keys.drop_last();
        let last = keys.last();
        assert(strictly_increasing(front)) by {
            assert forall|i: int, j: int| 0 <= i < j < front.len() implies lex_lt(
                #[trigger] front[i],
                #[trigger] front[j],
            ) by {
                assert(lex_lt(keys[i], keys[j]));
            }
        }
        lemma_filter_increasing(front, wanted);
        if wanted(last) {
            let kept = front.filter(wanted);
            assert forall|i: int, j: int| 0 <= i < j < kept.len() + 1 implies lex_lt(
                #[trigger] kept.push(last)[i],
                #[trigger] kept.push(last)[j],
            ) by {
                if j < kept.len() {
                    assert(lex_lt(kept[i], kept[j]));
                } else {
                    assert(kept.contains(kept[i]));
                    front.lemma_filter_contains_rev(wanted, kept[i]);
                    let m = choose|m: int| 0 <= m < front.len() && front[m] == kept[i];
                    assert(lex_lt(keys[m], keys[keys.len() - 1]));
                }
            }
        }
    }
}

/// Two predicates that agree on every text of a run lead to the same
/// decoded keys.
pub proof fn lemma_decoded_agree(
    keys: Seq<Seq<u8>>,
    first: spec_fn(Seq<u8>) -> bool,
    second: spec_fn(Seq<u8>) -> bool,
)
    requires
        forall|i: int|
            0 <= i < keys.len() && valid_utf8(#[trigger] keys[i]) ==> first(keys[i]) == second(
                keys[i],
            ),
    ensures
        decoded(keys.filter(first)) == decoded(keys.filter(second)),
    decreases keys.len(),
{
    reveal(Seq::filter);
    if keys.len() > 0 {
        let front = keys.drop_last();
        let last = keys.last();
        assert forall|i: int| 0 <= i < front.len() && valid_utf8(#[trigger] front[i]) implies first(
            front[i],
        ) == second(front[i]) by {
            assert(front[i] == keys[i]);
        }
        lemma_decoded_agree(front, first, second);
        lemma_decoded_push(front.filter(first), last);
        lemma_decoded_push(front.filter(second), last);
        assert(valid_utf8(keys[keys.len() - 1]) ==> first(last) == second(last));
    }
}

/// A query returns no more names than its limit allows, and none where the
/// limit is zero.
pub proof fn lemma_hits_capped(keys: Seq<Seq<u8>>, wanted: spec_fn(Seq<u8>) -> bool, max: nat)
    ensures
        hits(keys, wanted, max).len() <= max,
        max == 0 ==> hits(keys, wanted, max) == Seq::<Seq<char>>::empty(),
{
    if max == 0 {
        assert(hits(keys, wanted, max) =~= Seq::<Seq<char>>::empty());
    }
}

/// Every name that a query returns is a key of the set: one that is valid
/// UTF-8 and of which the predicate of the query holds. No name that the set
/// does not hold is returned.
pub proof fn lemma_hits_are_keys(
    keys: Seq<Seq<u8>>,
    wanted: spec_fn(Seq<u8>) -> bool,
    max: nat,
    i: int,
) -> (key: Seq<u8>)
    requires
        0 <= i < hits(keys, wanted, max).len(),
    ensures
        keys.contains(key),
        wanted(key),
        valid_utf8(key),
        hits(keys, wanted, max)[i] == decode_utf8(key),
{
    let kept = keys.filter(wanted);
    let texts = kept.filter(is_text());
    let key = texts[i];
    kept.lemma_filter_pred(is_text(), i);
    assert(texts.contains(key));
    kept.lemma_filter_contains_rev(is_text(), key);
    let m = choose|m: int| 0 <= m < kept.len() && kept[m] == key;
    keys.lemma_filter_pred(wanted, m);
    keys.lemma_filter_contains_rev(wanted, key);
    key
}

/// The names that a query returns on a strictly increasing run of keys come
/// in the order of their bytes, strictly increasing.
pub proof fn lemma_hits_sorted(keys: Seq<Seq<u8>>, wanted: spec_fn(Seq<u8>) -> bool, max: nat)
    requires
        strictly_increasing(keys),
    ensures
        strictly_increasing(hits(keys, wanted, max).map_values(|text: Seq<char>| encode_utf8(text))),
{
    let kept = keys.filter(wanted);
    let texts = kept.filter(is_text());
    let found = hits(keys, wanted, max);
    let bytes = found.map_values(|text: Seq<char>| encode_utf8(text));
    lemma_filter_increasing(keys, wanted);
    lemma_filter_increasing(kept, is_text());
    assert forall|i: int| 0 <= i < bytes.len() implies #[trigger] bytes[i] == texts[i] by {
        kept.lemma_filter_pred(is_text(), i);
        decode_utf8_encode_utf8(texts[i]);
    }
    assert forall|i: int, j: int| 0 <= i < j < bytes.len() implies lex_lt(
        #[trigger] bytes[i],
        #[trigger] bytes[j],
    ) by {
        assert(lex_lt(texts[i], texts[j]));
    }
}

/// The keys that start with `prefix`, as a predicate.
pub open spec fn starting_with(prefix: Seq<u8>) -> spec_fn(Seq<u8>) -> bool {
    |key: Seq<u8>| prefix.is_prefix_of(key)
}

/// The keys whose text starts with `prefix`, as a predicate.
pub open spec fn text_starting_with(prefix: Seq<char>) -> spec_fn(Seq<u8>) -> bool {
    |key: Seq<u8>| prefix.is_prefix_of(decode_utf8(key))
}

/// A key comes before each of its extensions.
pub proof fn lemma_lex_lt_extension(key: Seq<u8>, tail: Seq<u8>)
    requires
        tail.len() > 0,
    ensures
        lex_lt(key, key + tail),
{
    let longer = key + tail;
    assert(longer.take(key.len() as int) =~= key);
    assert(key.take(key.len() as int) =~= key);
    lemma_lex_lt_skip(key, longer, key.len() as int);
    assert(key.skip(key.len() as int).len() == 0);
    assert(longer.skip(key.len() as int) =~= tail);
}

/// A key from `prefix` on that comes before an extension of `prefix` starts
/// with `prefix`.
pub proof fn lemma_range_starts_with(key: Seq<u8>, prefix: Seq<u8>, tail: Seq<u8>)
    requires
        lex_le(prefix, key),
        lex_lt(key, prefix + tail),
    ensures
        prefix.is_prefix_of(key),
    decreases prefix.len(),
{
    let upper = prefix + tail;
    if prefix.len() == 0 {
        assert(prefix =~= key.subrange(0, 0));
    } else {
        assert(upper[0] == prefix[0]);
        assert(key.len() > 0);
        assert(key[0] == prefix[0]);
        assert(upper.drop_first() =~= prefix.drop_first() + tail);
        lemma_range_starts_with(key.drop_first(), prefix.drop_first(), tail);
        assert(prefix =~= key.subrange(0, prefix.len() as int)) by {
            assert(prefix.drop_first() =~= key.drop_first().subrange(0, prefix.len() - 1));
            assert forall|i: int| 0 <= i < prefix.len() implies prefix[i] == key[i] by {
                if i > 0 {
                    assert(prefix[i] == prefix.drop_first()[i - 1]);
                    assert(key[i] == key.drop_first().subrange(0, prefix.len() - 1)[i - 1]);
                }
            }
        }
    }
}

/// The range that a prefix query reads holds the keys that start with the
/// prefix and go on with less than the highest character, and no other key.
pub proof fn lemma_prefix_range(key: Seq<u8>, prefix: Seq<u8>)
    ensures
        between(prefix, prefix_upper(prefix))(key) <==> prefix.is_prefix_of(key) && lex_lt(
            key.skip(prefix.len() as int),
            max_char_bytes(),
        ),
{
    let upper = prefix_upper(prefix);
    let n = prefix.len() as int;
    if between(prefix, upper)(key) {
        lemma_range_starts_with(key, prefix, max_char_bytes());
    }
    if prefix.is_prefix_of(key) {
        assert(key.take(n) =~= prefix);
        assert(prefix.take(n) =~= prefix);
        assert(upper.take(n) =~= prefix);
        lemma_lex_lt_skip(key, prefix, n);
        lemma_lex_lt_skip(key, upper, n);
        assert(prefix.skip(n).len() == 0);
        assert(upper.skip(n) =~= max_char_bytes());
    }
}

/// The bytes of the highest character.
pub proof fn lemma_max_char_bytes()
    ensures
        encode_utf8(seq!['\u{10FFFF}']) == max_char_bytes(),
{
    let highest = seq!['\u{10FFFF}'];
    let scalar: u32 = 0x10FFFF;
    assert(highest[0] as u32 == scalar);
    assert(highest.drop_first() =~= Seq::<char>::empty());
    reveal_with_fuel(encode_utf8, 2);
    assert(leading_byte_width_4(scalar) == 0xF4u8 && third_last_continuation_byte(scalar) == 0x8Fu8
        && second_last_continuation_byte(scalar) == 0xBFu8 && last_continuation_byte(scalar)
        == 0xBFu8) by {
        assert(0xf0u8 | ((0x10FFFFu32 >> 18) & 0x07) as u8 == 0xF4u8) by (bit_vector);
        assert(0x80u8 | ((0x10FFFFu32 >> 12) & 0x3f) as u8 == 0x8Fu8) by (bit_vector);
        assert(0x80u8 | ((0x10FFFFu32 >> 6) & 0x3f) as u8 == 0xBFu8) by (bit_vector);
        assert(0x80u8 | (0x10FFFFu32 & 0x3f) as u8 == 0xBFu8) by (bit_vector);
    }
    assert(encode_scalar(scalar) =~= max_char_bytes());
    assert(encode_utf8(highest) =~= max_char_bytes());
}

/// Text comes before the highest character unless it starts with it: no
/// byte string that is valid UTF-8 lies beyond the bytes of U+10FFFF but one
/// that starts with them.
pub proof fn lemma_text_below_max_char(text: Seq<u8>)
    requires
        valid_utf8(text),
        !max_char_bytes().is_prefix_of(text),
    ensures
        lex_lt(text, max_char_bytes()),
{
    let max = max_char_bytes();
    if text.len() > 0 {
        assert(valid_first_scalar(text));
        let b0 = text[0];
        if b0 >= 0xF4 {
            let b1 = text[1];
            let b2 = text[2];
            let b3 = text[3];
            assert(0xF4 <= b0 <= 0xF7 && 0x80 <= b1 <= 0xBF && ((((b0 & 0x07) as u32) << 18) | ((
            (b1 & 0x3f) as u32) << 12) | (((b2 & 0x3f) as u32) << 6) | ((b3 & 0x3f) as u32))
                <= 0x10ffff ==> b0 == 0xF4 && b1 <= 0x8F) by (bit_vector);
            assert(text.take(1) =~= max.take(1));
            lemma_lex_lt_skip(text, max, 1);
            if b1 == 0x8F {
                assert(text.take(2) =~= max.take(2));
                lemma_lex_lt_skip(text, max, 2);
                if b2 == 0xBF {
                    assert(text.take(3) =~= max.take(3));
                    lemma_lex_lt_skip(text, max, 3);
                    if b3 == 0xBF {
                        assert(max =~= text.subrange(0, 4));
                    }
                }
            }
        }
    }
}

/// A prefix query returns the names that start with the prefix, in the order
/// of the set, up to its limit, where no name of the set goes on after the
/// prefix with the highest character or with bytes beyond it.
pub proof fn lemma_prefix_search_exact(keys: Seq<Seq<u8>>, prefix: Seq<u8>, max: nat)
    requires
        forall|i: int|
            0 <= i < keys.len() && valid_utf8(#[trigger] keys[i]) && prefix.is_prefix_of(keys[i])
                ==> lex_lt(keys[i].skip(prefix.len() as int), max_char_bytes()),
    ensures
        prefix_matches(keys, prefix, max) == hits(keys, starting_with(prefix), max),
{
    let range = between(prefix, prefix_upper(prefix));
    assert forall|i: int| 0 <= i < keys.len() && valid_utf8(#[trigger] keys[i]) implies range(
        keys[i],
    ) == starting_with(prefix)(keys[i]) by {
        lemma_prefix_range(keys[i], prefix);
    }
    lemma_decoded_agree(keys, range, starting_with(prefix));
}

/// A prefix query for a text returns the names that start with that text, in
/// the order of the set, up to its limit, unless a name of the set holds the
/// highest character, U+10FFFF, right after the prefix: such a name lies
/// beyond the range that is read.
pub proof fn lemma_prefix_search_of_text(keys: Seq<Seq<u8>>, prefix: Seq<char>, max: nat)
    requires
        forall|i: int|
            0 <= i < keys.len() && valid_utf8(#[trigger] keys[i]) ==> !prefix_upper(
                encode_utf8(prefix),
            ).is_prefix_of(keys[i]),
    ensures
        prefix_matches(keys, encode_utf8(prefix), max) == hits(
            keys,
            starting_with(encode_utf8(prefix)),
            max,
        ),
{
    let start = encode_utf8(prefix);
    let n = start.len() as int;
    encode_utf8_valid_utf8(prefix);
    assert forall|i: int|
        0 <= i < keys.len() && valid_utf8(#[trigger] keys[i]) && start.is_prefix_of(
            keys[i],
        ) implies lex_lt(keys[i].skip(n), max_char_bytes()) by {
        let key = keys[i];
        let rest = key.skip(n);
        lemma_prefix_ends_at_boundary(start, key);
        valid_utf8_split(key, n);
        assert(rest =~= key.subrange(n, key.len() as int));
        if max_char_bytes().is_prefix_of(rest) {
            assert(prefix_upper(start) =~= key.subrange(0, n + 4)) by {
                assert(forall|j: int| 0 <= j < 4 ==> rest.subrange(0, 4)[j] == key[n + j]);
            }
        }
        lemma_text_below_max_char(rest);
    }
    lemma_prefix_search_exact(keys, start, max);
}

/// A prefix query returns the names whose text starts with the text of the
/// query, in the order of the set, up to its limit, unless a name of the set
/// holds the highest character, U+10FFFF, right after the prefix.
pub proof fn lemma_prefix_search_on_text(keys: Seq<Seq<u8>>, prefix: Seq<char>, max: nat)
    requires
        forall|i: int|
            0 <= i < keys.len() && valid_utf8(#[trigger] keys[i]) ==> !(prefix.push(
                '\u{10FFFF}',
            )).is_prefix_of(decode_utf8(keys[i])),
    ensures
        prefix_matches(keys, encode_utf8(prefix), max) == hits(keys, text_starting_with(prefix), max),
{
    let start = encode_utf8(prefix);
    assert(encode_utf8(seq!['\u{10FFFF}']) == max_char_bytes()) by {
        lemma_max_char_bytes();
    }
    assert forall|i: int| 0 <= i < keys.len() && valid_utf8(#[trigger] keys[i]) implies !prefix_upper(
        start,
    ).is_prefix_of(keys[i]) by {
        assert(prefix.push('\u{10FFFF}') =~= prefix + seq!['\u{10FFFF}']);
        crate::text::lemma_encode_concat(prefix, seq!['\u{10FFFF}']);
        crate::text::lemma_starts_with_text(prefix.push('\u{10FFFF}'), keys[i]);
    }
    lemma_prefix_search_of_text(keys, prefix, max);
    assert forall|i: int| 0 <= i < keys.len() && valid_utf8(#[trigger] keys[i]) implies starting_with(
        start,
    )(keys[i]) == text_starting_with(prefix)(keys[i]) by {
        crate::text::lemma_starts_with_text(prefix, keys[i]);
    }
    lemma_decoded_agree(keys, starting_with(start), text_starting_with(prefix));
}

/// Every name of a store is found again: the prefix query for a key that is
/// valid UTF-8 returns that name first.
pub proof fn lemma_name_found(keys: Seq<Seq<u8>>, key: Seq<u8>, max: nat)
    requires
        strictly_increasing(keys),
        keys.contains(key),
        valid_utf8(key),
        max >= 1,
    ensures
        prefix_matches(keys, key, max).len() >= 1,
        prefix_matches(keys, key, max)[0] == decode_utf8(key),
{
    let range = between(key, prefix_upper(key));
    let at = choose|at: int| 0 <= at < keys.len() && keys[at] == key;
    let front = keys.take(at);
    let back = keys.skip(at + 1);
    assert(keys =~= front.push(key) + back);
    lemma_lex_lt_irreflexive(key);
    lemma_lex_lt_extension(key, max_char_bytes());
    assert(range(key));
    assert(front.all(|other: Seq<u8>| !range(other))) by {
        assert forall|i: int| 0 <= i < front.len() implies !range(#[trigger] front[i]) by {
            assert(lex_lt(keys[i], keys[at]));
        }
    }
    front.lemma_all_neg_filter_empty(range);
    front.lemma_filter_push(key, range);
    Seq::filter_distributes_over_add(front.push(key), back, range);
    let first = Seq::<Seq<u8>>::empty().push(key);
    assert(front.filter(range) =~= Seq::<Seq<u8>>::empty());
    assert(keys.filter(range) =~= first + back.filter(range));
    lemma_decoded_concat(first, back.filter(range));
    lemma_decoded_push(Seq::<Seq<u8>>::empty(), key);
    assert(decoded(Seq::<Seq<u8>>::empty()) =~= Seq::<Seq<char>>::empty()) by {
        reveal(Seq::filter);
    }
    assert(decoded(first)[0] == decode_utf8(key));
}

/// A substring query does not tell the case of its text: two queries with
/// the same lowercase form return the same names.
pub proof fn lemma_substring_any_case(
    keys: Seq<Seq<u8>>,
    first: Seq<char>,
    second: Seq<char>,
    max: nat,
)
    ensures
        lowercase(first) == lowercase(second) ==> substring_matches(keys, first, max)
            == substring_matches(keys, second, max),
{
    if lowercase(first) == lowercase(second) {
        assert forall|i: int| 0 <= i < keys.len() implies containing(first)(#[trigger] keys[i])
            == containing(second)(keys[i]) by {}
        lemma_filter_agree(keys, containing(first), containing(second));
    }
}

/// A key that is valid UTF-8 matches the substring query for its own text.
pub proof fn lemma_key_contains_itself(key: Seq<u8>)
    requires
        valid_utf8(key),
    ensures
        key_contains(key, decode_utf8(key)),
{
    let folded = lowercase(decode_utf8(key));
    assert(folded.subrange(0, folded.len() as int) =~= folded);
    assert(crate::text::occurs_at(folded, folded, 0));
}

/// Every name of a text is found in the store that is built for it: the
/// prefix query for the name returns it first.
pub proof fn lemma_names_are_found(text: Seq<u8>, name: Seq<u8>, max: nat)
    requires
        names_of(text).contains(name),
        max >= 1,
    ensures
        prefix_matches(index_keys(names_of(text)), name, max).len() >= 1,
        prefix_matches(index_keys(names_of(text)), name, max)[0] == decode_utf8(name),
{
    let lines = crate::lines::text_lines(text);
    let at = choose|at: int| 0 <= at < names_of(text).len() && names_of(text)[at] == name;
    lines.lemma_filter_pred(is_text(), at);
    lemma_index_keys(text);
    assert(index_keys(names_of(text)).contains(name));
    lemma_name_found(index_keys(names_of(text)), name, max);
}

/// Every name that a query returns on the store of a text is a name of that
/// text.
pub proof fn lemma_answers_are_names(
    text: Seq<u8>,
    wanted: spec_fn(Seq<u8>) -> bool,
    max: nat,
    i: int,
) -> (name: Seq<u8>)
    requires
        0 <= i < hits(index_keys(names_of(text)), wanted, max).len(),
    ensures
        names_of(text).contains(name),
        hits(index_keys(names_of(text)), wanted, max)[i] == decode_utf8(name),
{
    let name = lemma_hits_are_keys(index_keys(names_of(text)), wanted, max, i);
    lemma_index_keys(text);
    assert(index_keys(names_of(text)).contains(name));
    name
}

} // verus!
