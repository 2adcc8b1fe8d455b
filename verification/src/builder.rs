//! Building a store: the names of a text are its lines that are valid UTF-8;
//! sorted, and each taken once, they are the keys of the store that is
//! written.

use crate::keys::{
    lemma_lex_lt_asymmetric, lemma_lex_lt_irreflexive, lex_le, lex_lt, nondecreasing, strictly_increasing,
};
use crate::lines::{key_views, split_lines, text_lines};
use crate::sorting::{
    dedup_keys, key_order, lemma_key_order_total, lemma_without_repeats_increasing, sort_keys, without_repeats,
};
use crate::store::{builder_finish, builder_insert, builder_keys, builder_new, is_store_of};
use crate::text::{is_text, is_utf8};
use vstd::prelude::*;
use vstd::relations::sorted_by;
use vstd::seq_lib::lemma_sorted_unique;

verus! {

/// Why a store could not be built. The keys are handed to the builder in
/// increasing order and written to memory, so neither case arises.
#[derive(Debug)]
pub enum BuildError {
    /// The builder refused a key as out of order.
    OutOfOrder(fst::Error),
    /// The store could not be written out.
    Unfinished(fst::Error),
}

/// The names in `text`: its lines that are valid UTF-8, in their order. The
/// other lines are passed over.
pub open spec fn names_of(text: Seq<u8>) -> Seq<Seq<u8>> {
    text_lines(text).filter(is_text())
}

/// The keys of the store for `names`: the names sorted, without repeats.
pub open spec fn index_keys(names: Seq<Seq<u8>>) -> Seq<Seq<u8>> {
    without_repeats(names.sort_by(key_order()))
}

/// A sorted run of keys is the sorted form of every run that holds the same
/// keys as often.
pub proof fn lemma_sorted_is_sort(sorted: Seq<Seq<u8>>, keys: Seq<Seq<u8>>)
    requires
        nondecreasing(sorted),
        sorted.to_multiset() == keys.to_multiset(),
    ensures
        sorted == keys.sort_by(key_order()),
{
    lemma_key_order_total();
    keys.lemma_sort_by_ensures(key_order());
    assert(sorted_by(sorted, key_order())) by {
        assert forall|i: int, j: int| 0 <= i < j < sorted.len() implies #[trigger] key_order()(
            sorted[i],
            sorted[j],
        ) by {
            assert(lex_le(sorted[i], sorted[j]));
        }
    }
    lemma_sorted_unique(sorted, keys.sort_by(key_order()), key_order());
}

/// The keys of a store are strictly increasing, whatever the names.
pub proof fn lemma_index_keys_increasing(names: Seq<Seq<u8>>)
    ensures
        strictly_increasing(index_keys(names)),
{
    let sorted = names.sort_by(key_order());
    lemma_key_order_total();
    names.lemma_sort_by_ensures(key_order());
    assert(nondecreasing(sorted)) by {
        assert forall|i: int, j: int| 0 <= i < j < sorted.len() implies lex_le(
            #[trigger] sorted[i],
            #[trigger] sorted[j],
        ) by {
            assert(key_order()(sorted[i], sorted[j]));
        }
    }
    lemma_without_repeats_increasing(sorted);
}

/// Keeps the lines that are names.
fn keep_names<'a>(lines: &Vec<&'a [u8]>) -> (names: Vec<&'a [u8]>)
    ensures
        key_views(names@) == key_views(lines@).filter(is_text()),
{
    let ghost all = key_views(lines@);
    let mut names: Vec<&'a [u8]> = Vec::new();
    let mut i: usize = 0;
    assert(all.take(0) =~= Seq::<Seq<u8>>::empty());
    assert(key_views(names@) =~= all.take(0).filter(is_text())) by {
        reveal(Seq::filter);
    }
    while i < lines.len()
        invariant
            all == key_views(lines@),
            i <= lines@.len(),
            key_views(names@) == all.take(i as int).filter(is_text()),
        decreases lines@.len() - i,
    {
        let ghost before = key_views(names@);
        let line = lines[i];
        proof {
            assert(all.take(i + 1) =~= all.take(i as int).push(all[i as int]));
            all.take(i as int).lemma_filter_push(all[i as int], is_text());
        }
        if is_utf8(line) {
            names.push(line);
            assert(key_views(names@) =~= before.push(all[i as int]));
        }
        i += 1;
    }
    assert(all.take(i as int) =~= all);
    names
}

/// A store that was built, with the counts of what went into it.
pub struct BuiltIndex {
    /// The bytes of the store.
    pub store: Vec<u8>,
    /// The number of names that were read: the lines that are valid UTF-8.
    pub names: usize,
    /// The number of keys of the store: the names that differ.
    pub keys: usize,
}

/// Builds the store for the names in `text`, which holds one name on each
/// line, and returns its bytes with the number of names read and the number
/// of keys stored.
pub fn build_fst_index(text: &[u8]) -> (r: Result<BuiltIndex, BuildError>)
    ensures
        r is Ok,
        r matches Ok(built) ==> is_store_of(built.store@, index_keys(names_of(text@)))
            && built.names == names_of(text@).len() && built.keys == index_keys(
            names_of(text@),
        ).len(),
{
    let lines = split_lines(text);
    let names = keep_names(&lines);
    let sorted = sort_keys(names.as_slice());
    let unique = dedup_keys(sorted.as_slice());
    let ghost keys = key_views(unique@);
    proof {
        lemma_sorted_is_sort(key_views(sorted@), names_of(text@));
        lemma_index_keys_increasing(names_of(text@));
    }
    let mut builder = builder_new();
    let mut i: usize = 0;
    assert(keys.take(0) =~= Seq::<Seq<u8>>::empty());
    while i < unique.len()
        invariant
            keys == key_views(unique@),
            strictly_increasing(keys),
            i <= unique@.len(),
            builder_keys(builder) == keys.take(i as int),
        decreases unique@.len() - i,
    {
        proof {
            assert(keys.take(i + 1) =~= keys.take(i as int).push(keys[i as int]));
            if i > 0 {
                assert(keys.take(i as int).last() == keys[i - 1]);
                assert(lex_lt(keys[i - 1], keys[i as int]));
                lemma_lex_lt_asymmetric(keys[i - 1], keys[i as int]);
                lemma_lex_lt_irreflexive(keys[i as int]);
            }
        }
        match builder_insert(&mut builder, unique[i]) {
            Ok(()) => {},
            Err(error) => {
                return Err(BuildError::OutOfOrder(error));
            },
        }
        i += 1;
    }
    assert(keys.take(i as int) =~= keys);
    match builder_finish(builder) {
        Ok(store) => Ok(BuiltIndex { store, names: names.len(), keys: unique.len() }),
        Err(error) => Err(BuildError::Unfinished(error)),
    }
}

/// Builds the store for the names in `text`, which holds one name on each
/// line, and returns its bytes. The store holds every name once, in
/// lexicographic order, whatever their order in `text` and however often they
/// occur there. It has the frame that a load asks for.
pub fn build_fst_set(text: &[u8]) -> (r: Result<Vec<u8>, BuildError>)
    ensures
        r is Ok,
        r matches Ok(bytes) ==> is_store_of(bytes@, index_keys(names_of(text@))),
{
    match build_fst_index(text) {
        Ok(built) => Ok(built.store),
        Err(error) => Err(error),
    }
}

} // verus!
