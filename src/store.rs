//! The content-addressed block store: where a block lives on disk, which
//! files of a directory belong to a fingerprint's collision chain, and which
//! index a block takes in that chain.
//!
//! Reading the directory and the files is left to the caller; this module
//! decides from what was read.

use vstd::prelude::*;
use crate::naming::{fingerprint_hex, hex32, parse_index, parse_index_from, push_decimal, decimal};
use crate::digest::xxh3_128_of;
use crate::text::{char_vec, push_char, push_chars, push_str};

verus! {

/// What can go wrong while storing or reading a block.
#[derive(Debug)]
pub enum RwError {
    /// The file system failed.
    Io(std::io::Error),
    /// No file name can be formed for a new block of this fingerprint (hex form).
    PathError(String),
}

/// `/blocks/`
pub open spec fn blocks_segment() -> Seq<char> {
    seq!['/', 'b', 'l', 'o', 'c', 'k', 's', '/']
}

/// `<root>/blocks/<h0>/<h1>/<h2>`, where `h0 h1 h2` are the first three
/// digit pairs of the fingerprint's hexadecimal form.
pub open spec fn block_dir_of(root: Seq<char>, xxh3: u128) -> Seq<char> {
    let h = hex32(xxh3);
    root + blocks_segment() + h.subrange(0, 2) + seq!['/'] + h.subrange(2, 4) + seq!['/']
        + h.subrange(4, 6)
}

/// `<HEX>-`: what every file of the fingerprint's collision chain starts with.
pub open spec fn chain_prefix(xxh3: u128) -> Seq<char> {
    hex32(xxh3).push('-')
}

/// `<HEX>-<n>`: the file name of the block with index `n`.
pub open spec fn block_file_name_of(xxh3: u128, n: u32) -> Seq<char> {
    chain_prefix(xxh3) + decimal(n as nat)
}

/// The collision index that a file name gives within the fingerprint's chain,
/// if it belongs to that chain; names with a malformed suffix give none.
pub open spec fn collision_index_of(name: Seq<char>, xxh3: u128) -> Option<u32> {
    let p = chain_prefix(xxh3);
    if name.len() >= p.len() && name.subrange(0, p.len() as int) == p {
        parse_index(name.subrange(p.len() as int, name.len() as int))
    } else {
        None
    }
}

/// The collision indices found among `names`, in the order of the names.
pub open spec fn chain_indices(names: Seq<Seq<char>>, xxh3: u128) -> Seq<u32>
    decreases names.len(),
{
    if names.len() == 0 {
        seq![]
    } else {
        let rest = chain_indices(names.drop_last(), xxh3);
        match collision_index_of(names.last(), xxh3) {
            Some(n) => rest.push(n),
            None => rest,
        }
    }
}

/// The directory that holds the blocks of a fingerprint.
pub fn get_block_dir(root_path: &str, xxh3: u128) -> (r: String)
    ensures
        r@ == block_dir_of(root_path@, xxh3),
{
    let h = char_vec(fingerprint_hex(xxh3).as_str());
    let mut s = String::new();
    push_str(&mut s, root_path);
    let seg: Vec<char> = vec!['/', 'b', 'l', 'o', 'c', 'k', 's', '/'];
    push_chars(&mut s, &seg);
    push_char(&mut s, h[0]);
    push_char(&mut s, h[1]);
    push_char(&mut s, '/');
    push_char(&mut s, h[2]);
    push_char(&mut s, h[3]);
    push_char(&mut s, '/');
    push_char(&mut s, h[4]);
    push_char(&mut s, h[5]);
    let ghost hs = hex32(xxh3);
    assert(seg@ == blocks_segment());
    assert(hs.subrange(0, 2) == seq![h@[0], h@[1]]);
    assert(hs.subrange(2, 4) == seq![h@[2], h@[3]]);
    assert(hs.subrange(4, 6) == seq![h@[4], h@[5]]);
    assert(s@ =~= block_dir_of(root_path@, xxh3));
    s
}

/// The file name `<HEX>-<n>` of a block.
pub fn block_file_name(xxh3: u128, n: u32) -> (r: String)
    ensures
        r@ == block_file_name_of(xxh3, n),
{
    let mut s = fingerprint_hex(xxh3);
    push_char(&mut s, '-');
    push_decimal(&mut s, n);
    s
}

/// The full path `<block dir>/<HEX>-<n>` of a block.
pub fn block_path(root_path: &str, xxh3: u128, n: u32) -> (r: String)
    ensures
        r@ == block_dir_of(root_path@, xxh3).push('/') + block_file_name_of(xxh3, n),
{
    let mut s = get_block_dir(root_path, xxh3);
    push_char(&mut s, '/');
    let name = char_vec(block_file_name(xxh3, n).as_str());
    push_chars(&mut s, &name);
    s
}

/// The collision index of a directory entry named `name`, if it belongs to
/// the fingerprint's chain.
pub fn collision_index(name: &str, xxh3: u128) -> (r: Option<u32>)
    ensures
        r == collision_index_of(name@, xxh3),
        r matches Some(n) ==> n >= 1,
{
    let mut p = fingerprint_hex(xxh3);
    push_char(&mut p, '-');
    let pc = char_vec(p.as_str());
    let cs = char_vec(name);
    if cs.len() < pc.len() {
        return None;
    }
    let mut i: usize = 0;
    while i < pc.len()
        invariant
            pc@ == chain_prefix(xxh3),
            cs@ == name@,
            pc@.len() <= cs@.len(),
            i <= pc@.len(),
            forall|j: int| 0 <= j < i ==> cs@[j] == pc@[j],
        decreases pc@.len() - i,
    {
        if cs[i] != pc[i] {
            assert(cs@.subrange(0, pc@.len() as int)[i as int] != pc@[i as int]);
            return None;
        }
        i = i + 1;
    }
    assert(cs@.subrange(0, pc@.len() as int) =~= pc@);
    parse_index_from(&cs, pc.len())
}

/// The collision indices among the names of a block directory's entries,
/// in the order given.
pub fn collision_indices(names: &Vec<String>, xxh3: u128) -> (r: Vec<u32>)
    ensures
        r@ == chain_indices(names@.map_values(|s: String| s@), xxh3),
        forall|k: int| 0 <= k < r@.len() ==> #[trigger] r@[k] >= 1,
{
    let ghost all = names@.map_values(|s: String| s@);
    let mut out: Vec<u32> = Vec::new();
    let mut i: usize = 0;
    while i < names.len()
        invariant
            i <= names@.len(),
            all == names@.map_values(|s: String| s@),
            out@ == chain_indices(all.subrange(0, i as int), xxh3),
            forall|k: int| 0 <= k < out@.len() ==> #[trigger] out@[k] >= 1,
        decreases names@.len() - i,
    {
        let ghost pre = all.subrange(0, i + 1);
        assert(pre.drop_last() == all.subrange(0, i as int));
        assert(pre.last() == names@[i as int]@);
        match collision_index(names[i].as_str(), xxh3) {
            Some(n) => out.push(n),
            None => {},
        }
        i = i + 1;
    }
    assert(all.subrange(0, i as int) == all);
    out
}

/// One existing file of a collision chain: its index and its bytes.
pub struct ChainEntry {
    pub index: u32,
    pub data: Vec<u8>,
}

impl View for ChainEntry {
    type V = (u32, Seq<u8>);

    open spec fn view(&self) -> (u32, Seq<u8>) {
        (self.index, self.data@)
    }
}

/// A collision chain as a sequence of `(index, bytes)`.
pub open spec fn chain_view(chain: Seq<ChainEntry>) -> Seq<(u32, Seq<u8>)> {
    chain.map_values(|e: ChainEntry| e@)
}

/// Where a block goes in its fingerprint's chain.
#[derive(Debug, PartialEq, Eq, Structural, Clone, Copy)]
pub enum BlockPlacement {
    /// A file of the chain already holds these bytes, under this index.
    Existing(u32),
    /// No file holds them: write them under this new index.
    New(u32),
}

impl BlockPlacement {
    /// The collision index that the block ends up with.
    pub open spec fn spec_index(self) -> u32 {
        match self {
            BlockPlacement::Existing(n) => n,
            BlockPlacement::New(n) => n,
        }
    }

    /// The collision index that the block ends up with.
    pub fn index(&self) -> (r: u32)
        ensures
            r == self.spec_index(),
    {
        match self {
            BlockPlacement::Existing(n) => *n,
            BlockPlacement::New(n) => *n,
        }
    }
}

/// The largest index in the chain, 0 for an empty one.
pub open spec fn max_index(c: Seq<(u32, Seq<u8>)>) -> u32
    decreases c.len(),
{
    if c.len() == 0 {
        0
    } else {
        let m = max_index(c.drop_first());
        if c[0].0 > m {
            c[0].0
        } else {
            m
        }
    }
}

/// The index of the first file of the chain, in the order given, whose bytes
/// equal `data`.
pub open spec fn first_holding(c: Seq<(u32, Seq<u8>)>, data: Seq<u8>) -> Option<u32>
    decreases c.len(),
{
    if c.len() == 0 {
        None
    } else if c[0].1 == data {
        Some(c[0].0)
    } else {
        first_holding(c.drop_first(), data)
    }
}

/// How many files of the chain hold exactly `data`.
pub open spec fn count_holding(c: Seq<(u32, Seq<u8>)>, data: Seq<u8>) -> nat
    decreases c.len(),
{
    if c.len() == 0 {
        0
    } else {
        count_holding(c.drop_first(), data) + if c[0].1 == data {
            1nat
        } else {
            0nat
        }
    }
}

/// Where `data` goes: the first file already holding it, else one past the
/// largest index; none when that index would not fit in 32 bits.
pub open spec fn placement_of(c: Seq<(u32, Seq<u8>)>, data: Seq<u8>) -> Option<BlockPlacement> {
    match first_holding(c, data) {
        Some(n) => Some(BlockPlacement::Existing(n)),
        None => if max_index(c) < u32::MAX {
            Some(BlockPlacement::New((max_index(c) + 1) as u32))
        } else {
            None
        },
    }
}

/// The chain after `data` has been stored.
pub open spec fn chain_after(c: Seq<(u32, Seq<u8>)>, data: Seq<u8>) -> Seq<(u32, Seq<u8>)> {
    match placement_of(c, data) {
        Some(BlockPlacement::New(n)) => c.push((n, data)),
        _ => c,
    }
}

/// Every file of the chain has an index of at least 1.
pub open spec fn indices_positive(c: Seq<(u32, Seq<u8>)>) -> bool {
    forall|k: int| 0 <= k < c.len() ==> (#[trigger] c[k]).0 >= 1
}

/// Every chain index is at least 1.
pub fn indices_are_positive(chain: &Vec<ChainEntry>) -> (r: bool)
    ensures
        r == indices_positive(chain_view(chain@)),
{
    let mut i: usize = 0;
    while i < chain.len()
        invariant
            i <= chain@.len(),
            forall|k: int| 0 <= k < i ==> (#[trigger] chain_view(chain@)[k]).0 >= 1,
        decreases chain@.len() - i,
    {
        assert(chain_view(chain@)[i as int] == chain@[i as int]@);
        if chain[i].index == 0 {
            return false;
        }
        i = i + 1;
    }
    true
}

/// Whether two byte strings are equal.
fn bytes_equal(a: &[u8], b: &[u8]) -> (r: bool)
    ensures
        r == (a@ == b@),
{
    if a.len() != b.len() {
        return false;
    }
    let mut i: usize = 0;
    while i < a.len()
        invariant
            a@.len() == b@.len(),
            i <= a@.len(),
            forall|j: int| 0 <= j < i ==> a@[j] == b@[j],
        decreases a@.len() - i,
    {
        if a[i] != b[i] {
            return false;
        }
        i = i + 1;
    }
    assert(a@ =~= b@);
    true
}

/// Decides the collision index of `data` from the files of its chain: the
/// first one whose bytes equal `data`, else a new index one past the largest.
/// Every new block gets an index of at least 1.
pub fn place_block(chain: &Vec<ChainEntry>, xxh3: u128, data: &[u8]) -> (r: Result<
    BlockPlacement,
    RwError,
>)
    requires
        indices_positive(chain_view(chain@)),
    ensures
        match placement_of(chain_view(chain@), data@) {
            Some(p) => r == Ok::<BlockPlacement, RwError>(p),
            None => r matches Err(RwError::PathError(h)) && h@ == hex32(xxh3),
        },
        r matches Ok(p) ==> p.spec_index() >= 1,
{
    let ghost c = chain_view(chain@);
    let mut best: u32 = 0;
    let mut i: usize = 0;
    assert(c.subrange(0, c.len() as int) == c);
    while i < chain.len()
        invariant
            c == chain_view(chain@),
            indices_positive(c),
            i <= chain@.len(),
            first_holding(c, data@) == first_holding(c.subrange(i as int, c.len() as int), data@),
            max_index(c) == if best > max_index(c.subrange(i as int, c.len() as int)) {
                best
            } else {
                max_index(c.subrange(i as int, c.len() as int))
            },
        decreases chain@.len() - i,
    {
        let ghost rest = c.subrange(i as int, c.len() as int);
        assert(rest.drop_first() == c.subrange(i + 1, c.len() as int));
        assert(rest[0] == chain@[i as int]@);
        assert(c[i as int].0 >= 1);
        if bytes_equal(chain[i].data.as_slice(), data) {
            return Ok(BlockPlacement::Existing(chain[i].index));
        }
        if chain[i].index > best {
            best = chain[i].index;
        }
        i = i + 1;
    }
    assert(c.subrange(i as int, c.len() as int).len() == 0);
    if best == u32::MAX {
        return Err(RwError::PathError(fingerprint_hex(xxh3)));
    }
    Ok(BlockPlacement::New(best + 1))
}

proof fn lemma_first_holding_push(c: Seq<(u32, Seq<u8>)>, e: (u32, Seq<u8>), data: Seq<u8>)
    ensures
        first_holding(c.push(e), data) == match first_holding(c, data) {
            Some(n) => Some(n),
            None => if e.1 == data {
                Some(e.0)
            } else {
                None
            },
        },
        count_holding(c.push(e), data) == count_holding(c, data) + if e.1 == data {
            1nat
        } else {
            0nat
        },
    decreases c.len(),
{
    if c.len() > 0 {
        assert(c.push(e).drop_first() == c.drop_first().push(e));
        lemma_first_holding_push(c.drop_first(), e, data);
    } else {
        assert(c.push(e).drop_first() == c);
    }
}

proof fn lemma_none_holding(c: Seq<(u32, Seq<u8>)>, data: Seq<u8>)
    ensures
        first_holding(c, data) is None <==> count_holding(c, data) == 0,
    decreases c.len(),
{
    if c.len() > 0 {
        lemma_none_holding(c.drop_first(), data);
    }
}

/// Storing the same bytes twice in a row gives the same collision index both
/// times, and the second store adds no file to the chain; a chain that held
/// no copy of the bytes holds exactly one afterwards.
pub proof fn lemma_sequential_writes_deduplicate(c: Seq<(u32, Seq<u8>)>, data: Seq<u8>)
    requires
        placement_of(c, data) is Some,
    ensures
        placement_of(chain_after(c, data), data) == Some(
            BlockPlacement::Existing(placement_of(c, data)->0.spec_index()),
        ),
        chain_after(chain_after(c, data), data) == chain_after(c, data),
        count_holding(c, data) == 0 ==> count_holding(chain_after(c, data), data) == 1,
        count_holding(c, data) > 0 ==> chain_after(c, data) == c,
{
    lemma_none_holding(c, data);
    let c1 = chain_after(c, data);
    match placement_of(c, data) {
        Some(BlockPlacement::New(n)) => {
            lemma_first_holding_push(c, (n, data), data);
        },
        _ => {},
    }
}

/// A pool's block store: the collision chain of each fingerprint.
pub type StoreView = Map<u128, Seq<(u32, Seq<u8>)>>;

/// The collision chain of `fp`, empty where no block has that fingerprint.
pub open spec fn chain_of(st: StoreView, fp: u128) -> Seq<(u32, Seq<u8>)> {
    if st.contains_key(fp) {
        st[fp]
    } else {
        seq![]
    }
}

/// Stores one chunk under its fingerprint: the store afterwards and the
/// chunk's collision index.
pub open spec fn store_chunk(st: StoreView, d: Seq<u8>) -> Option<(StoreView, u32)> {
    let fp = xxh3_128_of(d);
    match placement_of(chain_of(st, fp), d) {
        Some(p) => Some((st.insert(fp, chain_after(chain_of(st, fp), d)), p.spec_index())),
        None => None,
    }
}

/// Stores a file's chunks one after another: the store afterwards and each
/// chunk's collision index, by sequence number.
pub open spec fn store_chunks(st: StoreView, ds: Seq<Seq<u8>>) -> Option<(StoreView, Seq<u32>)>
    decreases ds.len(),
{
    if ds.len() == 0 {
        Some((st, seq![]))
    } else {
        match store_chunks(st, ds.drop_last()) {
            Some((st1, ix)) => match store_chunk(st1, ds.last()) {
                Some((st2, i)) => Some((st2, ix.push(i))),
                None => None,
            },
            None => None,
        }
    }
}

/// Every chunk `ds[k]` is the first holder of its bytes in its chain, under index `ix[k]`.
pub open spec fn all_held(st: StoreView, ds: Seq<Seq<u8>>, ix: Seq<u32>) -> bool {
    &&& ds.len() == ix.len()
    &&& forall|k: int|
        0 <= k < ds.len() ==> first_holding(chain_of(st, xxh3_128_of(#[trigger] ds[k])), ds[k]) == Some(
            ix[k],
        )
}

proof fn lemma_store_chunk_keeps_held(st: StoreView, ds: Seq<Seq<u8>>, ix: Seq<u32>, d: Seq<u8>)
    requires
        all_held(st, ds, ix),
        store_chunk(st, d) is Some,
    ensures
        all_held((store_chunk(st, d)->0).0, ds.push(d), ix.push((store_chunk(st, d)->0).1)),
{
    let fp = xxh3_128_of(d);
    let c = chain_of(st, fp);
    let st2 = (store_chunk(st, d)->0).0;
    let n = (store_chunk(st, d)->0).1;
    lemma_sequential_writes_deduplicate(c, d);
    assert(chain_of(st2, fp) == chain_after(c, d));
    let ds2 = ds.push(d);
    let ix2 = ix.push(n);
    assert forall|k: int| 0 <= k < ds2.len() implies first_holding(
        chain_of(st2, xxh3_128_of(#[trigger] ds2[k])),
        ds2[k],
    ) == Some(ix2[k]) by {
        if k < ds.len() {
            assert(ds2[k] == ds[k]);
            let fk = xxh3_128_of(ds[k]);
            if fk == fp {
                match placement_of(c, d) {
                    Some(BlockPlacement::New(m)) => {
                        lemma_first_holding_push(c, (m, d), ds[k]);
                    },
                    _ => {},
                }
            } else {
                assert(chain_of(st2, fk) == chain_of(st, fk));
            }
        } else {
            assert(ds2[k] == d);
        }
    }
}

proof fn lemma_store_chunks_holds(st: StoreView, ds: Seq<Seq<u8>>)
    requires
        store_chunks(st, ds) is Some,
    ensures
        all_held((store_chunks(st, ds)->0).0, ds, (store_chunks(st, ds)->0).1),
    decreases ds.len(),
{
    if ds.len() > 0 {
        let pre = ds.drop_last();
        lemma_store_chunks_holds(st, pre);
        let (st1, ix) = store_chunks(st, pre)->0;
        lemma_store_chunk_keeps_held(st1, pre, ix, ds.last());
        assert(pre.push(ds.last()) =~= ds);
    }
}

proof fn lemma_held_store_unchanged(st: StoreView, ds: Seq<Seq<u8>>, ix: Seq<u32>)
    requires
        all_held(st, ds, ix),
    ensures
        store_chunks(st, ds) == Some((st, ix)),
    decreases ds.len(),
{
    if ds.len() > 0 {
        let pre = ds.drop_last();
        let ipre = ix.drop_last();
        assert(all_held(st, pre, ipre)) by {
            assert forall|k: int| 0 <= k < pre.len() implies first_holding(
                chain_of(st, xxh3_128_of(#[trigger] pre[k])),
                pre[k],
            ) == Some(ipre[k]) by {
                assert(pre[k] == ds[k]);
            }
        }
        lemma_held_store_unchanged(st, pre, ipre);
        let d = ds.last();
        let fp = xxh3_128_of(d);
        assert(first_holding(chain_of(st, fp), d) == Some(ix.last()));
        assert(st.contains_key(fp));
        assert(st.insert(fp, chain_of(st, fp)) =~= st);
        assert(ipre.push(ix.last()) =~= ix);
    }
}

/// Ingesting the same chunks a second time, right after the first, writes no
/// new block and gives every chunk the same collision index as before: the
/// two block maps are equal element by element.
pub proof fn lemma_second_ingest_adds_no_block(st: StoreView, ds: Seq<Seq<u8>>)
    requires
        store_chunks(st, ds) is Some,
    ensures
        store_chunks((store_chunks(st, ds)->0).0, ds) == store_chunks(st, ds),
{
    lemma_store_chunks_holds(st, ds);
    let (st1, ix) = store_chunks(st, ds)->0;
    lemma_held_store_unchanged(st1, ds, ix);
}

} // verus!
