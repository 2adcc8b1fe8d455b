//! Loading a store: the frame of the bytes is tested, the header, the footer
//! and whether the root node ends where the footer begins, and a set is
//! opened over them. The nodes are not read through.

use crate::store::{footer_fits, le_u64, set_data, set_open, store_accepted, store_framed};
use vstd::prelude::*;

verus! {

/// Why a store could not be loaded.
#[derive(Debug, PartialEq, Eq)]
pub enum LoadError {
    /// The bytes do not have the frame of a store: they are too short, of an
    /// unknown version, their root node does not end where their footer
    /// begins, as in a file that was cut off, or they name more keys than
    /// this machine counts.
    CorruptStore,
}

/// Reads the number that the eight bytes of `bytes` from `at` on encode, the
/// lowest byte first.
fn read_le_u64(bytes: &[u8], at: usize) -> (r: u64)
    requires
        at + 8 <= bytes@.len(),
    ensures
        r == le_u64(bytes@, at as int),
{
    let end: usize = bytes.len();
    let b0: u64 = bytes[at] as u64;
    let b1: u64 = bytes[at + 1] as u64;
    let b2: u64 = bytes[at + 2] as u64;
    let b3: u64 = bytes[at + 3] as u64;
    let b4: u64 = bytes[at + 4] as u64;
    let b5: u64 = bytes[at + 5] as u64;
    let b6: u64 = bytes[at + 6] as u64;
    let b7: u64 = bytes[at + 7] as u64;
    let r6: u64 = b6 + 256 * b7;
    let r5: u64 = b5 + 256 * r6;
    let r4: u64 = b4 + 256 * r5;
    let r3: u64 = b3 + 256 * r4;
    let r2: u64 = b2 + 256 * r3;
    let r1: u64 = b1 + 256 * r2;
    b0 + 256 * r1
}

/// Decides whether `data` have the frame of a store.
pub fn is_framed(data: &[u8]) -> (r: bool)
    ensures
        r == store_framed(data@),
{
    let len: usize = data.len();
    if len < 36 {
        return false;
    }
    let version: u64 = read_le_u64(data, 0);
    if version == 0 || version > 3 {
        return false;
    }
    let end: usize = if version <= 2 {
        len
    } else {
        len - 4
    };
    let root: u64 = read_le_u64(data, end - 8);
    let count: u64 = read_le_u64(data, end - 16);
    if count > usize::MAX as u64 {
        return false;
    }
    let total: u64 = len as u64;
    if root == 0 {
        version == 3 && len == 36
    } else if version <= 2 {
        root == total - 17
    } else {
        root == total - 21
    }
}

/// The frame of a store is what `Set::new` asks for and can read.
pub proof fn lemma_framed_is_accepted(bytes: Seq<u8>)
    requires
        store_framed(bytes),
        bytes.len() <= usize::MAX,
    ensures
        store_accepted(bytes),
        footer_fits(bytes),
{
}

/// Opens the store that `data` holds, and returns the set that stands on
/// these bytes. Bytes that have the frame of a store are accepted, and those
/// of every store that was built here have it; the set of a built store is
/// intact and holds the keys of that store. Bytes without that frame are
/// refused. Bytes with the frame that no build wrote give a set that is not
/// known to be intact and that no query takes.
pub fn load_fst_set(data: Vec<u8>) -> (r: Result<fst::Set<Vec<u8>>, LoadError>)
    ensures
        r is Ok <==> store_framed(data@),
        r matches Ok(set) ==> set_data(set) == data@,
        r matches Err(error) ==> error == LoadError::CorruptStore,
{
    let len: usize = data.len();
    if !is_framed(data.as_slice()) {
        return Err(LoadError::CorruptStore);
    }
    proof {
        assert(data@.len() == len);
        lemma_framed_is_accepted(data@);
    }
    match set_open(data) {
        Ok(set) => Ok(set),
        Err(_) => Err(LoadError::CorruptStore),
    }
}

} // verus!
