//! Telling binary files from text files by their first bytes.

use vstd::prelude::*;

verus! {

/// How many bytes at the start of a file are looked at.
pub const SNIFF_LEN: usize = 8001;

/// What stands at a path of the source tree.
#[derive(Debug, PartialEq, Eq)]
pub enum Entry {
    /// A directory.
    Directory,
    /// Something that could not be read.
    Unreadable,
    /// A file that begins with these bytes. More than the first `SNIFF_LEN`
    /// are never looked at.
    File(Vec<u8>),
}

/// Whether one of the first `SNIFF_LEN` bytes is zero.
pub open spec fn has_zero_byte(bytes: Seq<u8>) -> bool {
    exists|i: int| 0 <= i < bytes.len() && i < SNIFF_LEN && #[trigger] bytes[i] == 0
}

/// Whether `entry` is a binary file. A directory is not, and neither is
/// what could not be read: that is taken for text.
pub open spec fn binary(entry: Entry) -> bool {
    match entry {
        Entry::File(bytes) => has_zero_byte(bytes@),
        _ => false,
    }
}

/// A file with a zero byte among its first 8000 bytes is binary; a file of
/// at most that many bytes, none of them zero, is not.
pub proof fn lemma_binary(bytes: Seq<u8>)
    ensures
        (exists|i: int| 0 <= i < bytes.len() && i < 8000 && #[trigger] bytes[i] == 0)
            ==> has_zero_byte(bytes),
        bytes.len() <= 8000 && (forall|i: int| 0 <= i < bytes.len() ==> #[trigger] bytes[i] != 0)
            ==> !has_zero_byte(bytes),
{
}

/// Whether `entry` is a directory.
pub fn is_dir(entry: &Entry) -> (dir: bool)
    ensures
        dir == (entry is Directory),
{
    match entry {
        Entry::Directory => true,
        _ => false,
    }
}

/// Whether one of the first `SNIFF_LEN` bytes is zero.
pub fn sniff(bytes: &Vec<u8>) -> (zero: bool)
    ensures
        zero == has_zero_byte(bytes@),
{
    let n = if bytes.len() < SNIFF_LEN {
        bytes.len()
    } else {
        SNIFF_LEN
    };
    let mut i: usize = 0;
    while i < n
        invariant
            i <= n,
            n <= bytes.len(),
            n <= SNIFF_LEN,
            n == bytes.len() || n == SNIFF_LEN,
            forall|j: int| 0 <= j < i ==> #[trigger] bytes@[j] != 0,
        decreases n - i,
    {
        if bytes[i] == 0 {
            return true;
        }
        i += 1;
    }
    false
}

/// Whether `entry` is a binary file.
pub fn is_binary(entry: &Entry) -> (is: bool)
    ensures
        is == binary(*entry),
{
    match entry {
        Entry::File(bytes) => sniff(bytes),
        _ => false,
    }
}

} // verus!
