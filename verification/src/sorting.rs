//! A store takes its keys in increasing order, each once. This module sorts
//! keys by merging and drops the repeats of a sorted run.

use crate::keys::{
    key_lt, lemma_lex_le_transitive, lemma_lex_lt_irreflexive, lemma_lex_lt_total, lex_le, lex_lt, nondecreasing,
    strictly_increasing,
};
use crate::lines::key_views;
use vstd::prelude::*;
use vstd::relations::total_ordering;
use vstd::seq_lib::{lemma_multiset_commutative, to_multiset_build};

verus! {

/// The order of keys as a relation: `a` comes before `b` or equals it.
pub open spec fn key_order() -> spec_fn(Seq<u8>, Seq<u8>) -> bool {
    |a: Seq<u8>, b: Seq<u8>| lex_le(a, b)
}

/// `keys` without the keys that repeat the key just before them.
pub open spec fn without_repeats(keys: Seq<Seq<u8>>) -> Seq<Seq<u8>>
    decreases keys.len(),
{
    if keys.len() <= 1 {
        keys
    } else if keys[keys.len() - 2] == keys.last() {
        without_repeats(keys.drop_last())
    } else {
        without_repeats(keys.drop_last()).push(keys.last())
    }
}

/// The order of keys is a total order.
pub proof fn lemma_key_order_total()
    ensures
        total_ordering(key_order()),
{
    let leq = key_order();
    assert forall|a: Seq<u8>| #[trigger] leq(a, a) by {
        lemma_lex_lt_irreflexive(a);
    }
    assert forall|a: Seq<u8>, b: Seq<u8>| #[trigger] leq(a, b) && #[trigger] leq(b, a) implies a
        == b by {
        lemma_lex_lt_total(a, b);
    }
    assert forall|a: Seq<u8>, b: Seq<u8>| #[trigger] leq(a, b) || #[trigger] leq(b, a) by {
        lemma_lex_lt_total(a, b);
        if lex_lt(a, b) && lex_lt(b, a) {
            crate::keys::lemma_lex_lt_asymmetric(a, b);
        }
    }
    assert forall|a: Seq<u8>, b: Seq<u8>, c: Seq<u8>| #[trigger]
        leq(a, b) && #[trigger] leq(b, c) implies leq(a, c) by {
        lemma_lex_le_transitive(a, b, c);
    }
}

/// Dropping the repeats of a run keeps its last key.
pub proof fn lemma_without_repeats_last(keys: Seq<Seq<u8>>)
    requires
        keys.len() > 0,
    ensures
        without_repeats(keys).len() > 0,
        without_repeats(keys).last() == keys.last(),
    decreases keys.len(),
{
    if keys.len() > 1 {
        lemma_without_repeats_last(keys.drop_last());
    }
}

/// Dropping the repeats of a run neither adds a key nor loses one.
pub proof fn lemma_without_repeats_contains(keys: Seq<Seq<u8>>, key: Seq<u8>)
    ensures
        without_repeats(keys).contains(key) <==> keys.contains(key),
    decreases keys.len(),
{
    if keys.len() > 1 {
        let front = keys.drop_last();
        let kept = without_repeats(front);
        let all = without_repeats(keys);
        let repeat = keys[keys.len() - 2] == keys.last();
        lemma_without_repeats_contains(front, key);
        if keys.contains(key) {
            let i = choose|i: int| 0 <= i < keys.len() && keys[i] == key;
            if i < keys.len() - 1 {
                assert(front[i] == key);
            } else if repeat {
                assert(front[keys.len() - 2] == key);
            }
            if front.contains(key) {
                let j = choose|j: int| 0 <= j < kept.len() && kept[j] == key;
                assert(all[j] == key);
            } else {
                assert(all[kept.len() as int] == key);
            }
        }
        if all.contains(key) {
            let i = choose|i: int| 0 <= i < all.len() && all[i] == key;
            if i < kept.len() {
                assert(kept[i] == key);
                let j = choose|j: int| 0 <= j < front.len() && front[j] == key;
                assert(keys[j] == key);
            } else {
                assert(keys[keys.len() - 1] == key);
            }
        }
    }
}

/// A sorted run without its repeats is strictly increasing.
pub proof fn lemma_without_repeats_increasing(keys: Seq<Seq<u8>>)
    requires
        nondecreasing(keys),
    ensures
        strictly_increasing(without_repeats(keys)),
    decreases keys.len(),
{
    if keys.len() > 1 {
        let front = keys.drop_last();
        assert(nondecreasing(front)) by {
            assert forall|i: int, j: int| 0 <= i < j < front.len() implies lex_le(
                #[trigger] front[i],
                #[trigger] front[j],
            ) by {
                assert(lex_le(keys[i], keys[j]));
            }
        }
        lemma_without_repeats_increasing(front);
        lemma_without_repeats_last(front);
        if keys[keys.len() - 2] != keys.last() {
            let unique = without_repeats(front);
            let last = keys.last();
            assert(lex_le(keys[keys.len() - 2], keys[keys.len() - 1]));
            lemma_lex_lt_total(unique.last(), last);
            assert forall|i: int, j: int| 0 <= i < j < unique.len() + 1 implies lex_lt(
                #[trigger] unique.push(last)[i],
                #[trigger] unique.push(last)[j],
            ) by {
                if j < unique.len() {
                    assert(lex_lt(unique[i], unique[j]));
                } else if i < unique.len() - 1 {
                    assert(lex_lt(unique[i], unique[unique.len() - 1]));
                    crate::keys::lemma_lex_lt_transitive(unique[i], unique.last(), last);
                }
            }
        }
    }
}

/// Decides whether two keys are equal.
pub fn key_eq(a: &[u8], b: &[u8]) -> (r: bool)
    ensures
        r == (a@ == b@),
{
    if a.len() != b.len() {
        return false;
    }
    let mut i: usize = 0;
    while i < a.len()
        invariant
            a@.len() == b@.len(),
            i <= a@.len(),
            forall|j: int| 0 <= j < i ==> a@[j] == b@[j],
        decreases a@.len() - i,
    {
        if a[i] != b[i] {
            return false;
        }
        i += 1;
    }
    assert(a@ =~= b@);
    true
}

/// Merges two sorted runs into one.
fn merge<'a>(left: &Vec<&'a [u8]>, right: &Vec<&'a [u8]>) -> (merged: Vec<&'a [u8]>)
    requires
        nondecreasing(key_views(left@)),
        nondecreasing(key_views(right@)),
    ensures
        nondecreasing(key_views(merged@)),
        key_views(merged@).to_multiset() == key_views(left@).to_multiset().add(
            key_views(right@).to_multiset(),
        ),
{
    let ghost ls = key_views(left@);
    let ghost rs = key_views(right@);
    let mut merged: Vec<&'a [u8]> = Vec::new();
    let mut i: usize = 0;
    let mut j: usize = 0;
    assert(ls.take(0) =~= Seq::<Seq<u8>>::empty());
    assert(rs.take(0) =~= Seq::<Seq<u8>>::empty());
    assert(key_views(merged@) =~= Seq::<Seq<u8>>::empty());
    assert(key_views(merged@).to_multiset() =~= ls.take(0).to_multiset().add(
        rs.take(0).to_multiset(),
    )) by {
        broadcast use vstd::seq_lib::group_to_multiset_ensures;

    }
    while i < left.len() || j < right.len()
        invariant
            ls == key_views(left@),
            rs == key_views(right@),
            nondecreasing(ls),
            nondecreasing(rs),
            i <= left@.len(),
            j <= right@.len(),
            nondecreasing(key_views(merged@)),
            key_views(merged@).to_multiset() == ls.take(i as int).to_multiset().add(
                rs.take(j as int).to_multiset(),
            ),
            forall|k: int, p: int|
                0 <= k < merged@.len() && i <= p < ls.len() ==> lex_le(
                    #[trigger] key_views(merged@)[k],
                    #[trigger] ls[p],
                ),
            forall|k: int, q: int|
                0 <= k < merged@.len() && j <= q < rs.len() ==> lex_le(
                    #[trigger] key_views(merged@)[k],
                    #[trigger] rs[q],
                ),
        decreases left@.len() - i + right@.len() - j,
    {
        let ghost before = key_views(merged@);
        let from_left = if i == left.len() {
            false
        } else if j == right.len() {
            true
        } else {
            !key_lt(right[j], left[i])
        };
        if from_left {
            let key = left[i];
            merged.push(key);
            proof {
                assert(key_views(merged@) =~= before.push(ls[i as int]));
                assert(ls.take(i + 1) =~= ls.take(i as int).push(ls[i as int]));
                to_multiset_build(before, ls[i as int]);
                to_multiset_build(ls.take(i as int), ls[i as int]);
                assert(before.push(ls[i as int]).to_multiset() =~= ls.take(i + 1).to_multiset().add(
                    rs.take(j as int).to_multiset(),
                ));
                lemma_merge_step(before, ls[i as int], ls, i as int, rs, j as int);
            }
            i += 1;
        } else {
            let key = right[j];
            merged.push(key);
            proof {
                assert(key_views(merged@) =~= before.push(rs[j as int]));
                assert(rs.take(j + 1) =~= rs.take(j as int).push(rs[j as int]));
                to_multiset_build(before, rs[j as int]);
                to_multiset_build(rs.take(j as int), rs[j as int]);
                assert(before.push(rs[j as int]).to_multiset() =~= ls.take(i as int).to_multiset().add(
                    rs.take(j + 1).to_multiset(),
                ));
                if i < ls.len() {
                    lemma_lex_lt_total(rs[j as int], ls[i as int]);
                    crate::keys::lemma_lex_lt_asymmetric(rs[j as int], ls[i as int]);
                }
                lemma_merge_step(before, rs[j as int], rs, j as int, ls, i as int);
            }
            j += 1;
        }
    }
    assert(ls.take(i as int) =~= ls);
    assert(rs.take(j as int) =~= rs);
    merged
}

/// One step of a merge: the key `own[at]`, which no key of `other` from
/// `from` on comes before, goes to the end of what was merged so far.
proof fn lemma_merge_step(
    merged: Seq<Seq<u8>>,
    key: Seq<u8>,
    own: Seq<Seq<u8>>,
    at: int,
    other: Seq<Seq<u8>>,
    from: int,
)
    requires
        nondecreasing(merged),
        nondecreasing(own),
        nondecreasing(other),
        0 <= at < own.len(),
        0 <= from <= other.len(),
        key == own[at],
        from < other.len() ==> lex_le(key, other[from]),
        forall|k: int, p: int|
            0 <= k < merged.len() && at <= p < own.len() ==> lex_le(
                #[trigger] merged[k],
                #[trigger] own[p],
            ),
    ensures
        nondecreasing(merged.push(key)),
        forall|k: int, p: int|
            0 <= k < merged.len() + 1 && at + 1 <= p < own.len() ==> lex_le(
                #[trigger] merged.push(key)[k],
                #[trigger] own[p],
            ),
        forall|k: int, q: int|
            (k == merged.len() && from <= q < other.len()) ==> lex_le(
                #[trigger] merged.push(key)[k],
                #[trigger] other[q],
            ),
{
    let next = merged.push(key);
    assert forall|a: int, b: int| 0 <= a < b < next.len() implies lex_le(
        #[trigger] next[a],
        #[trigger] next[b],
    ) by {
        if b < merged.len() {
            assert(lex_le(merged[a], merged[b]));
        } else {
            assert(lex_le(merged[a], own[at]));
        }
    }
    assert forall|k: int, p: int| 0 <= k < merged.len() + 1 && at + 1 <= p < own.len() implies lex_le(
        #[trigger] next[k],
        #[trigger] own[p],
    ) by {
        if k < merged.len() {
            assert(lex_le(merged[k], own[p]));
        } else {
            assert(lex_le(own[at], own[p]));
        }
    }
    assert forall|k: int, q: int| (k == merged.len() && from <= q < other.len()) implies lex_le(
        #[trigger] next[k],
        #[trigger] other[q],
    ) by {
        lemma_lex_lt_irreflexive(other[from]);
        if from < q {
            assert(lex_le(other[from], other[q]));
            lemma_lex_le_transitive(key, other[from], other[q]);
        }
    }
}

/// Sorts `keys` by the lexicographic order of their bytes. Equal keys stay,
/// next to each other.
pub fn sort_keys<'a>(keys: &[&'a [u8]]) -> (sorted: Vec<&'a [u8]>)
    ensures
        nondecreasing(key_views(sorted@)),
        key_views(sorted@).to_multiset() == key_views(keys@).to_multiset(),
    decreases keys@.len(),
{
    let n = keys.len();
    if n <= 1 {
        let mut sorted: Vec<&'a [u8]> = Vec::new();
        if n == 1 {
            sorted.push(keys[0]);
        }
        assert(key_views(sorted@) =~= key_views(keys@));
        return sorted;
    }
    let mid = n / 2;
    let front = &keys[0..mid];
    let back = &keys[mid..n];
    let left = sort_keys(front);
    let right = sort_keys(back);
    let merged = merge(&left, &right);
    proof {
        assert(keys@ =~= front@ + back@);
        assert(key_views(keys@) =~= key_views(front@) + key_views(back@));
        lemma_multiset_commutative(key_views(front@), key_views(back@));
    }
    merged
}

/// Drops from `keys` each key that repeats the key just before it. Of a sorted
/// run this leaves every key once.
pub fn dedup_keys<'a>(keys: &[&'a [u8]]) -> (unique: Vec<&'a [u8]>)
    ensures
        key_views(unique@) == without_repeats(key_views(keys@)),
{
    let mut unique: Vec<&'a [u8]> = Vec::new();
    let mut i: usize = 0;
    assert(key_views(keys@).take(0) =~= Seq::<Seq<u8>>::empty());
    assert(key_views(unique@) =~= without_repeats(key_views(keys@).take(0)));
    while i < keys.len()
        invariant
            i <= keys@.len(),
            key_views(unique@) == without_repeats(key_views(keys@).take(i as int)),
        decreases keys@.len() - i,
    {
        let ghost all = key_views(keys@);
        let ghost before = key_views(unique@);
        proof {
            assert(all.take(i + 1).drop_last() =~= all.take(i as int));
        }
        if i == 0 || !key_eq(keys[i - 1], keys[i]) {
            unique.push(keys[i]);
            assert(key_views(unique@) =~= before.push(all[i as int]));
            assert(i == 0 ==> all.take(1) =~= seq![all[0]] && before =~= Seq::<Seq<u8>>::empty());
        }
        i += 1;
    }
    assert(key_views(keys@).take(i as int) =~= key_views(keys@));
    unique
}

} // verus!
