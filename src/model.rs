//! The records of the metadata tree.

use vstd::prelude::*;

verus! {

/// Where a block lives within a pool: its fingerprint and collision index.
#[derive(Debug, Clone, Copy, PartialEq, Eq, Structural)]
pub struct BlockInfo {
    pub xxh3: u128,
    pub index: u32,
}

/// A UTC instant: whole seconds since the Unix epoch and the nanoseconds past them.
#[derive(Debug, Clone, Copy, PartialEq, Eq, Structural)]
pub struct Timestamp {
    pub secs: i64,
    pub nanos: u32,
}

/// The block map of one file, kept in its `<cid>.json`. The block with
/// sequence number `k` is `blocks[k]`; sequence numbers run densely from 0
/// in read order.
#[derive(Debug, Clone)]
pub struct FileMetadata {
    pub filename: String,
    pub size: u64,
    pub created_at: Timestamp,
    pub modified_at: Timestamp,
    pub blocks: Vec<BlockInfo>,
}

/// A file's entry in its directory's listing.
#[derive(Debug, Clone)]
pub struct FileEntry {
    pub cid: String,
    pub size: u64,
    pub created_at: Timestamp,
    pub modified_at: Timestamp,
}

/// A subdirectory's entry in its parent's listing.
#[derive(Debug, Clone)]
pub struct DirectoryInfo {
    pub cid: String,
    pub size: u64,
    pub created_at: Timestamp,
    pub modified_at: Timestamp,
}

/// What a name in a listing stands for.
#[derive(Debug, Clone)]
pub enum Entry {
    File(FileEntry),
    Directory(DirectoryInfo),
}

impl Entry {
    /// The bytes that the entry accounts for.
    pub open spec fn spec_size(&self) -> u64 {
        match self {
            Entry::File(f) => f.size,
            Entry::Directory(d) => d.size,
        }
    }

    /// The content ID of the entry.
    pub open spec fn spec_cid(&self) -> Seq<char> {
        match self {
            Entry::File(f) => f.cid@,
            Entry::Directory(d) => d.cid@,
        }
    }

    /// The bytes that the entry accounts for.
    pub fn size(&self) -> (r: u64)
        ensures
            r == self.spec_size(),
    {
        match self {
            Entry::File(f) => f.size,
            Entry::Directory(d) => d.size,
        }
    }

    /// The content ID of the entry.
    pub fn cid(&self) -> (r: &String)
        ensures
            r@ == self.spec_cid(),
    {
        match self {
            Entry::File(f) => &f.cid,
            Entry::Directory(d) => &d.cid,
        }
    }
}

impl FileMetadata {
    /// The listing entry of this file under the content ID `cid`.
    pub fn entry(&self, cid: String) -> (r: FileEntry)
        ensures
            r.cid == cid,
            r.size == self.size,
            r.created_at == self.created_at,
            r.modified_at == self.modified_at,
    {
        FileEntry { cid, size: self.size, created_at: self.created_at, modified_at: self.modified_at }
    }
}

/// A request to ingest the OS file `file` into the directory `path` of pool `pool`.
#[derive(Debug, Clone)]
pub struct TestBlockStorageRequest {
    pub file: String,
    pub path: String,
    pub pool: u64,
}

} // verus!
