//! Assembling a file's block map while its chunks are stored, and the checks
//! that come before an ingestion starts.

use vstd::prelude::*;
use crate::error::MetadataError;
use crate::model::{BlockInfo, FileMetadata, Timestamp};
use crate::path_utils::{component_ok, rejection_of, validate_component};
use crate::pool::{get_pool_path_by_id, pool_root_of, PoolRegistry};
use crate::slicer::{chunks_of, concat_all, CHUNK_SIZE};
use crate::store::RwError;

verus! {

/// What can make an ingestion fail.
#[derive(Debug)]
pub enum IngestError {
    /// No pool is registered under this ID.
    PoolNotFound(u64),
    /// Reading the source file failed.
    Io(std::io::Error),
    /// Storing a block failed.
    Store(RwError),
    /// Validating names or updating the metadata tree failed.
    Metadata(MetadataError),
}

/// Relies on `chrono::Utc::now`, split into whole seconds and nanoseconds;
/// nothing is promised of the instant.
#[verifier::external_body]
fn utc_now() -> (r: Timestamp) {
    let t = chrono::Utc::now();
    Timestamp { secs: t.timestamp(), nanos: t.timestamp_subsec_nanos() }
}

/// Checks the file name and finds the pool's root before any block is written.
pub fn resolve_ingest_target(pools: &PoolRegistry, filename: &str, pool_id: u64) -> (r: Result<
    String,
    IngestError,
>)
    ensures
        !component_ok(filename@) ==> (r matches Err(IngestError::Metadata(e)) && rejection_of(
            filename@,
            e,
        )),
        component_ok(filename@) ==> match pool_root_of(pools@, pool_id) {
            Some(root) => r matches Ok(p) && p@ == root,
            None => r matches Err(IngestError::PoolNotFound(id)) && id == pool_id,
        },
{
    match validate_component(filename) {
        Ok(()) => {},
        Err(e) => {
            return Err(IngestError::Metadata(e));
        },
    }
    match get_pool_path_by_id(pools, pool_id) {
        Some(p) => Ok(p),
        None => Err(IngestError::PoolNotFound(pool_id)),
    }
}

/// The block map of a file being ingested, built one chunk at a time in read
/// order, with the chunks themselves kept as ghost state.
pub struct FileAssembly {
    blocks: Vec<BlockInfo>,
    total_size: u64,
    chunks: Ghost<Seq<Seq<u8>>>,
}

impl FileAssembly {
    /// The block recorded for each sequence number.
    pub closed spec fn spec_blocks(&self) -> Seq<BlockInfo> {
        self.blocks@
    }

    /// The bytes of each recorded chunk, by sequence number.
    pub closed spec fn spec_chunks(&self) -> Seq<Seq<u8>> {
        self.chunks@
    }

    /// The bytes recorded so far.
    pub closed spec fn spec_total(&self) -> u64 {
        self.total_size
    }

    /// One block per chunk, and the total is the number of bytes the chunks hold.
    pub open spec fn wf(&self) -> bool {
        &&& self.spec_blocks().len() == self.spec_chunks().len()
        &&& self.spec_total() == concat_all(self.spec_chunks()).len()
    }

    /// An assembly with no chunk yet.
    pub fn new() -> (r: Self)
        ensures
            r.wf(),
            r.spec_blocks() == Seq::<BlockInfo>::empty(),
            r.spec_chunks() == Seq::<Seq<u8>>::empty(),
            r.spec_total() == 0,
    {
        FileAssembly { blocks: Vec::new(), total_size: 0, chunks: Ghost(Seq::empty()) }
    }

    /// The bytes recorded so far.
    pub fn total_size(&self) -> (r: u64)
        ensures
            r == self.spec_total(),
    {
        self.total_size
    }

    /// The number of chunks recorded so far, which is the next sequence number.
    pub fn block_count(&self) -> (r: usize)
        ensures
            r == self.spec_blocks().len(),
    {
        self.blocks.len()
    }

    /// Records the next chunk, stored as the block `xxh3`/`index`.
    pub fn record_chunk(&mut self, chunk: &[u8], xxh3: u128, index: u32)
        requires
            old(self).wf(),
            old(self).spec_total() + chunk@.len() <= u64::MAX,
        ensures
            final(self).wf(),
            final(self).spec_blocks() == old(self).spec_blocks().push(BlockInfo { xxh3, index }),
            final(self).spec_chunks() == old(self).spec_chunks().push(chunk@),
            final(self).spec_total() == old(self).spec_total() + chunk@.len(),
    {
        let ghost before = self.chunks@;
        proof {
            crate::slicer::lemma_concat_all_append(before, seq![chunk@]);
            crate::slicer::lemma_concat_single(chunk@);
            assert(before + seq![chunk@] =~= before.push(chunk@));
        }
        self.blocks.push(BlockInfo { xxh3, index });
        self.total_size = self.total_size + chunk.len() as u64;
        self.chunks = Ghost(before.push(chunk@));
    }

    /// The finished block map of `filename`, created and modified at `now`.
    pub fn finish(self, filename: &str, now: Timestamp) -> (r: FileMetadata)
        ensures
            r.filename@ == filename@,
            r.size == self.spec_total(),
            r.created_at == now,
            r.modified_at == now,
            r.blocks@ == self.spec_blocks(),
    {
        FileMetadata {
            filename: filename.to_owned(),
            size: self.total_size,
            created_at: now,
            modified_at: now,
            blocks: self.blocks,
        }
    }

    /// The finished block map of `filename`, created and modified now.
    pub fn finish_now(self, filename: &str) -> (r: FileMetadata)
        ensures
            r.filename@ == filename@,
            r.size == self.spec_total(),
            r.created_at == r.modified_at,
            r.blocks@ == self.spec_blocks(),
    {
        let now = utc_now();
        self.finish(filename, now)
    }
}

/// The store's key for a block.
pub open spec fn block_key(b: BlockInfo) -> (u128, u32) {
    (b.xxh3, b.index)
}

/// Reading back, in sequence order, the block that each chunk was stored as
/// yields the chunks' bytes exactly: the file's byte stream.
pub proof fn lemma_block_map_reconstructs(a: FileAssembly, store: Map<(u128, u32), Seq<u8>>)
    requires
        a.wf(),
        forall|k: int|
            0 <= k < a.spec_blocks().len() ==> store.contains_key(block_key(#[trigger] a.spec_blocks()[k]))
                && store[block_key(a.spec_blocks()[k])] == a.spec_chunks()[k],
    ensures
        concat_all(a.spec_blocks().map_values(|b: BlockInfo| store[block_key(b)])) == concat_all(
            a.spec_chunks(),
        ),
        concat_all(a.spec_blocks().map_values(|b: BlockInfo| store[block_key(b)])).len()
            == a.spec_total(),
{
    assert(a.spec_blocks().map_values(|b: BlockInfo| store[block_key(b)]) =~= a.spec_chunks());
}

/// A file read in two buffers whose chunks were recorded in order has a
/// block map that is dense from 0, with one block per chunk, each chunk
/// holding between 1 and `CHUNK_SIZE` bytes; the chunks join to the two
/// buffers' bytes, and the recorded size is their total length.
pub proof fn lemma_two_buffers_assemble(a: FileAssembly, x: Seq<u8>, y: Seq<u8>)
    requires
        a.wf(),
        a.spec_chunks() == chunks_of(x) + chunks_of(y),
    ensures
        a.spec_blocks().len() == chunks_of(x).len() + chunks_of(y).len(),
        concat_all(a.spec_chunks()) == x + y,
        a.spec_total() == x.len() + y.len(),
        forall|k: int|
            0 <= k < a.spec_chunks().len() ==> 0 < #[trigger] a.spec_chunks()[k].len() <= CHUNK_SIZE,
{
    crate::slicer::lemma_buffers_chunk_contiguously(x, y);
    crate::slicer::lemma_chunk_sizes(x);
    crate::slicer::lemma_chunk_sizes(y);
    let c = a.spec_chunks();
    let cx = chunks_of(x);
    assert forall|k: int| 0 <= k < c.len() implies 0 < #[trigger] c[k].len() <= CHUNK_SIZE by {
        if k < cx.len() {
            assert(c[k] == cx[k]);
        } else {
            assert(c[k] == chunks_of(y)[k - cx.len()]);
        }
    }
}

} // verus!
