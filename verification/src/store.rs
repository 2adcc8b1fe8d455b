//! The ordered key store is a set of the `fst` crate. This module is the
//! boundary with that crate: its types as the verifier sees them, names for
//! what a store, a set, a builder and a stream hold, and one wrapper for each
//! function of `fst` that the library calls. The contracts of the wrappers
//! are taken on trust: they say what the documentation and the source of
//! `fst` 0.4 say, and nothing of them is proved.

use crate::keys::{lex_le, lex_lt, strictly_increasing};
use fst::IntoStreamer;
use fst::Streamer;
use vstd::prelude::*;

verus! {

/// `fst::Set`, a set of byte strings over the bytes `D` of a store. Nothing
/// is seen of what is inside.
#[verifier::external_type_specification]
#[verifier::external_body]
#[verifier::reject_recursive_types(D)]
pub struct ExSet<D>(fst::Set<D>);

/// `fst::SetBuilder`, which takes keys and writes a store to `W`.
#[verifier::external_type_specification]
#[verifier::external_body]
#[verifier::reject_recursive_types(W)]
pub struct ExSetBuilder<W>(fst::SetBuilder<W>);

/// `fst::Error`, the error of every fallible function of `fst`.
#[verifier::external_type_specification]
#[verifier::external_body]
pub struct ExError(fst::Error);

/// A stream of keys of a set, an `fst::set::Stream`. The verifier refuses the
/// declaration of that type, which is bounded by a trait of `fst`, so the
/// stream is held here. Only `stream_all` and `stream_range` make one, and
/// they make it from an intact set.
#[verifier::external_body]
pub struct KeyStream<'s> {
    inner: fst::set::Stream<'s>,
}

/// The bytes that `set` stands on, those that it was opened over.
pub uninterp spec fn set_data(set: fst::Set<Vec<u8>>) -> Seq<u8>;

/// The keys that `builder` holds, in the order in which it took them.
pub uninterp spec fn builder_keys(builder: fst::SetBuilder<Vec<u8>>) -> Seq<Seq<u8>>;

/// The keys that `stream` has yet to yield, in order.
pub uninterp spec fn stream_rest(stream: KeyStream<'_>) -> Seq<Seq<u8>>;

/// Whether `bytes` are a store as a `SetBuilder` writes it. Of a set that
/// was opened over other bytes `fst` promises nothing: reading it may panic.
pub uninterp spec fn store_intact(bytes: Seq<u8>) -> bool;

/// The keys of the store that `bytes` are, in the order in which a set that
/// is opened over them streams them. It says nothing of bytes that are not
/// intact.
pub uninterp spec fn store_keys(bytes: Seq<u8>) -> Seq<Seq<u8>>;

/// The keys that `set` holds, in the order in which it streams them.
pub open spec fn set_keys(set: fst::Set<Vec<u8>>) -> Seq<Seq<u8>> {
    store_keys(set_data(set))
}

/// Whether `set` stands on bytes that a builder wrote.
pub open spec fn set_intact(set: fst::Set<Vec<u8>>) -> bool {
    store_intact(set_data(set))
}

/// The number that the eight bytes of `bytes` from `at` on encode, the lowest
/// byte first.
pub open spec fn le_u64(bytes: Seq<u8>, at: int) -> nat {
    (bytes[at] + 256 * (bytes[at + 1] + 256 * (bytes[at + 2] + 256 * (bytes[at + 3] + 256 * (bytes[at
        + 4] + 256 * (bytes[at + 5] + 256 * (bytes[at + 6] + 256 * bytes[at + 7]))))))) as nat
}

/// The version of the format of a store, which its first eight bytes name.
pub open spec fn store_version(bytes: Seq<u8>) -> nat {
    le_u64(bytes, 0)
}

/// Where the footer of a store ends: before the checksum of four bytes,
/// which the versions 1 and 2 do not have.
pub open spec fn footer_end(bytes: Seq<u8>) -> int {
    if store_version(bytes) <= 2 {
        bytes.len() as int
    } else {
        bytes.len() - 4
    }
}

/// The address of the root, which the last eight bytes of the footer name:
/// the place of the last byte of the root node, or 0 for a root that is
/// final and has no transition.
pub open spec fn root_address(bytes: Seq<u8>) -> nat {
    le_u64(bytes, footer_end(bytes) - 8)
}

/// The number of keys, which the first eight bytes of the footer name.
pub open spec fn key_count(bytes: Seq<u8>) -> nat {
    le_u64(bytes, footer_end(bytes) - 16)
}

/// The number of bytes from the last byte of the root node to the end of a
/// store: that byte, the footer, and the checksum where there is one.
pub open spec fn root_to_end(bytes: Seq<u8>) -> int {
    if store_version(bytes) <= 2 {
        17
    } else {
        21
    }
}

/// The length of a store that holds no node: header and footer, and the
/// checksum where there is one.
pub open spec fn bare_len(bytes: Seq<u8>) -> int {
    if store_version(bytes) <= 2 {
        32
    } else {
        36
    }
}

/// Whether `Set::new` accepts `bytes`: they are 36 bytes or more, of a
/// version from 1 to 3, and a root address of 0 comes only with the length
/// of a store without a node.
pub open spec fn store_accepted(bytes: Seq<u8>) -> bool {
    &&& bytes.len() >= 36
    &&& 1 <= store_version(bytes) <= 3
    &&& root_address(bytes) == 0 ==> bytes.len() == bare_len(bytes) || bytes.len() == root_to_end(
        bytes,
    )
}

/// Whether `Set::new` can read the footer of `bytes` on this machine. It
/// reads the footer of bytes that are long enough and of a known version,
/// and gives up on a number that a `usize` does not hold.
pub open spec fn footer_fits(bytes: Seq<u8>) -> bool {
    bytes.len() >= 36 && 1 <= store_version(bytes) <= 3 ==> root_address(bytes) <= usize::MAX
        && key_count(bytes) <= usize::MAX
}

/// Whether `bytes` have the frame of a store: they are 36 bytes or more, of
/// a version from 1 to 3, the root node is the last thing before the footer,
/// and this machine can count the keys. A root address of 0 stands for a
/// store of version 3 without a node.
pub open spec fn store_framed(bytes: Seq<u8>) -> bool {
    &&& bytes.len() >= 36
    &&& 1 <= store_version(bytes) <= 3
    &&& key_count(bytes) <= usize::MAX
    &&& if root_address(bytes) == 0 {
        store_version(bytes) == 3 && bytes.len() == 36
    } else {
        root_address(bytes) + root_to_end(bytes) == bytes.len()
    }
}

/// Whether `bytes` are a store that a builder wrote and that this machine
/// reads, with its keys in strictly increasing order.
pub open spec fn is_store(bytes: Seq<u8>) -> bool {
    store_intact(bytes) && store_framed(bytes) && strictly_increasing(store_keys(bytes))
}

/// Whether `bytes` are a store that a builder wrote for `keys`.
pub open spec fn is_store_of(bytes: Seq<u8>, keys: Seq<Seq<u8>>) -> bool {
    is_store(bytes) && store_keys(bytes) == keys
}

/// Whether a builder that holds `keys` takes `key`: it refuses only a key
/// that comes before the last one it took.
pub open spec fn builder_takes(keys: Seq<Seq<u8>>, key: Seq<u8>) -> bool {
    keys.len() == 0 || lex_le(keys.last(), key)
}

/// What a builder that holds `keys` holds once it took `key`: a key equal to
/// the last is not stored again.
pub open spec fn builder_with(keys: Seq<Seq<u8>>, key: Seq<u8>) -> Seq<Seq<u8>> {
    if keys.len() > 0 && keys.last() == key {
        keys
    } else {
        keys.push(key)
    }
}

/// The keys from `lower` on that come before `upper`, as a predicate.
pub open spec fn between(lower: Seq<u8>, upper: Seq<u8>) -> spec_fn(Seq<u8>) -> bool {
    |key: Seq<u8>| lex_le(lower, key) && lex_lt(key, upper)
}

/// `SetBuilder::memory`: a builder that writes to memory and holds no key.
#[verifier::external_body]
pub(crate) fn builder_new() -> (builder: fst::SetBuilder<Vec<u8>>)
    ensures
        builder_keys(builder) == Seq::<Seq<u8>>::empty(),
{
    fst::SetBuilder::memory()
}

/// `SetBuilder::insert` on a builder in memory. It fails if and only if `key`
/// comes before the last key taken, and then takes nothing. A key equal to
/// the last one is accepted and not stored again. Writing to memory does not
/// fail.
#[verifier::external_body]
pub(crate) fn builder_insert(builder: &mut fst::SetBuilder<Vec<u8>>, key: &[u8]) -> (r: Result<
    (),
    fst::Error,
>)
    ensures
        r is Ok <==> builder_takes(builder_keys(*old(builder)), key@),
        builder_keys(*final(builder)) == if r is Ok {
            builder_with(builder_keys(*old(builder)), key@)
        } else {
            builder_keys(*old(builder))
        },
{
    builder.insert(key)
}

/// `SetBuilder::into_inner` on a builder in memory: the bytes of the finished
/// store, which holds the keys that the builder took. Writing to memory does
/// not fail. The store is of version 3; the root node is written last, then
/// the number of keys and the address of the root, both of them `usize`
/// values of this machine, then the checksum.
#[verifier::external_body]
pub(crate) fn builder_finish(builder: fst::SetBuilder<Vec<u8>>) -> (r: Result<Vec<u8>, fst::Error>)
    ensures
        r is Ok,
        r matches Ok(bytes) ==> store_intact(bytes@) && store_keys(bytes@) == builder_keys(builder),
        r matches Ok(bytes) ==> store_framed(bytes@),
{
    builder.into_inner()
}

/// `Set::new`: opens a set over `data`, which it keeps. It looks at the
/// length, at the version in the header and at the root address in the
/// footer, and at nothing else. The footer names an address and a count in
/// 64 bits each: on a machine with narrower addresses `Set::new` panics on a
/// number beyond them.
#[verifier::external_body]
pub(crate) fn set_open(data: Vec<u8>) -> (r: Result<fst::Set<Vec<u8>>, fst::Error>)
    requires
        usize::BITS == 64 || footer_fits(data@),
    ensures
        r is Ok <==> store_accepted(data@),
        r matches Ok(set) ==> set_data(set) == data@,
{
    fst::Set::new(data)
}

/// `Set::stream`: a stream of all keys of the set, in lexicographic order.
#[verifier::external_body]
pub(crate) fn stream_all<'s>(set: &'s fst::Set<Vec<u8>>) -> (stream: KeyStream<'s>)
    requires
        set_intact(*set),
    ensures
        stream_rest(stream) == store_keys(set_data(*set)),
{
    KeyStream { inner: set.stream() }
}

/// `Set::range` with the bounds `ge(lower)` and `lt(upper)`, then
/// `into_stream`: a stream of the keys from `lower` on that come before
/// `upper`, in lexicographic order.
#[verifier::external_body]
pub(crate) fn stream_range<'s>(set: &'s fst::Set<Vec<u8>>, lower: &[u8], upper: &[u8]) -> (stream:
    KeyStream<'s>)
    requires
        set_intact(*set),
    ensures
        stream_rest(stream) == store_keys(set_data(*set)).filter(between(lower@, upper@)),
{
    KeyStream { inner: set.range().ge(lower).lt(upper).into_stream() }
}

/// `Streamer::next` on a stream of keys: the next key, copied, or `None` once
/// the stream is exhausted.
#[verifier::external_body]
pub(crate) fn stream_next(stream: &mut KeyStream<'_>) -> (key: Option<Vec<u8>>)
    ensures
        match key {
            Some(k) => stream_rest(*old(stream)).len() > 0 && k@ == stream_rest(*old(stream))[0]
                && stream_rest(*final(stream)) == stream_rest(*old(stream)).drop_first(),
            None => stream_rest(*old(stream)).len() == 0 && stream_rest(*final(stream)).len() == 0,
        },
{
    stream.inner.next().map(|key| key.to_vec())
}

} // verus!
