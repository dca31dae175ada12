//! Batches of verified content items and the Merkle path check that guards
//! them.
//!
//! A writer for a partial blob receives batches of items: parents, the pair
//! of child hashes of one inner tree node, and leaves, the bytes of one chunk
//! at its byte offset. Before a leaf is accepted, the chain of parents from
//! the root of the tree down to the leaf, drawn from the parents stored so
//! far plus the ones in the same batch, must hash back to the blob's root
//! hash.

use vstd::prelude::*;

use crate::error::StoreError;
use crate::hash::BlobHash;
use crate::tree::{chunk_hash_of, parent_hash_of, pot_below, lemma_pot_below, pot_below_of,
    parent_hash, chunk_hash, num_chunks, num_chunks_of, CHUNK_SIZE};

verus! {

/// The pair of child hashes of one inner tree node.
#[derive(Clone, Copy, Debug)]
pub struct HashPair {
    /// The hash of the left child.
    pub left: BlobHash,
    /// The hash of the right child.
    pub right: BlobHash,
}

impl View for HashPair {
    type V = (Seq<u8>, Seq<u8>);

    open spec fn view(&self) -> (Seq<u8>, Seq<u8>) {
        (self.left@, self.right@)
    }
}

/// One item of a batch: an inner tree node or a chunk of data.
///
/// A parent names its node by the chunk range the node covers: `start` is the
/// node's first chunk, `count` how many chunks it spans in a tree over the
/// declared size.
#[derive(Clone, Debug)]
pub enum BaoContentItem {
    /// The pair of child hashes of the inner node covering chunks
    /// `[start, start + count)`.
    Parent {
        /// First chunk the node covers.
        start: u64,
        /// Number of chunks the node covers.
        count: u64,
        /// The node's pair of child hashes.
        pair: HashPair,
    },
    /// The bytes of one chunk, at its byte offset in the blob.
    Leaf {
        /// Byte offset of the chunk.
        offset: u64,
        /// The chunk's bytes.
        data: Vec<u8>,
    },
}

/// The map from tree nodes to child-hash pairs held by a sequence of stored
/// parents; a later entry for the same node wins.
pub open spec fn pmap_of(s: Seq<(u64, u64, HashPair)>) -> Map<(nat, nat), (Seq<u8>, Seq<u8>)>
    decreases s.len(),
{
    if s.len() == 0 {
        Map::empty()
    } else {
        pmap_of(s.drop_last()).insert(
            (s.last().0 as nat, s.last().1 as nat),
            (s.last().2.left@, s.last().2.right@),
        )
    }
}

/// The parents map after also taking the parents of a batch, in order.
pub open spec fn merged_pmap(
    stored: Map<(nat, nat), (Seq<u8>, Seq<u8>)>,
    items: Seq<BaoContentItem>,
) -> Map<(nat, nat), (Seq<u8>, Seq<u8>)>
    decreases items.len(),
{
    if items.len() == 0 {
        stored
    } else {
        let m = merged_pmap(stored, items.drop_last());
        match items.last() {
            BaoContentItem::Parent { start, count, pair } => m.insert(
                (start as nat, count as nat),
                (pair.left@, pair.right@),
            ),
            BaoContentItem::Leaf { .. } => m,
        }
    }
}

/// The lookup result for one node, if any.
pub open spec fn node_of(m: Map<(nat, nat), (Seq<u8>, Seq<u8>)>, k: (nat, nat)) -> Option<
    (Seq<u8>, Seq<u8>),
> {
    if m.contains_key(k) {
        Some(m[k])
    } else {
        None
    }
}

/// The parents persisted for one partial blob, keyed by the chunk range of
/// their node.
#[derive(Clone, Debug)]
pub struct ParentStore {
    entries: Vec<(u64, u64, HashPair)>,
}

impl View for ParentStore {
    type V = Map<(nat, nat), (Seq<u8>, Seq<u8>)>;

    closed spec fn view(&self) -> Map<(nat, nat), (Seq<u8>, Seq<u8>)> {
        pmap_of(self.entries@)
    }
}

impl ParentStore {
    /// An empty parent store.
    pub fn new() -> (r: ParentStore)
        ensures
            r@ == Map::<(nat, nat), (Seq<u8>, Seq<u8>)>::empty(),
    {
        ParentStore { entries: Vec::new() }
    }

    /// Look up the pair stored for the node covering `count` chunks from
    /// `start`.
    pub fn get(&self, start: u64, count: u64) -> (r: Option<HashPair>)
        ensures
            match r {
                Some(p) => node_of(self@, (start as nat, count as nat)) == Some(p@),
                None => node_of(self@, (start as nat, count as nat)) is None,
            },
    {
        proof {
            assert(self.entries@.subrange(0, self.entries@.len() as int) =~= self.entries@);
        }
        let mut i: usize = self.entries.len();
        while i > 0
            invariant
                i <= self.entries@.len(),
                node_of(pmap_of(self.entries@), (start as nat, count as nat)) == node_of(
                    pmap_of(self.entries@.subrange(0, i as int)),
                    (start as nat, count as nat),
                ),
            decreases i,
        {
            i = i - 1;
            let e = self.entries[i];
            proof {
                assert(self.entries@.subrange(0, i + 1).drop_last() =~= self.entries@.subrange(
                    0,
                    i as int,
                ));
                assert(self.entries@.subrange(0, i + 1).last() == self.entries@[i as int]);
            }
            if e.0 == start && e.1 == count {
                return Some(e.2);
            }
        }
        proof {
            assert(self.entries@.subrange(0, 0) =~= Seq::<(u64, u64, HashPair)>::empty());
        }
        None
    }

    /// Record the pair for the node covering `count` chunks from `start`.
    pub fn insert(&mut self, start: u64, count: u64, pair: HashPair)
        ensures
            final(self)@ == old(self)@.insert(
                (start as nat, count as nat),
                (pair.left@, pair.right@),
            ),
    {
        self.entries.push((start, count, pair));
        proof {
            assert(self.entries@.drop_last() =~= old(self).entries@);
        }
    }

    /// Record every parent of a batch, in batch order.
    pub fn merge_batch(&mut self, batch: &Vec<BaoContentItem>)
        ensures
            final(self)@ == merged_pmap(old(self)@, batch@),
    {
        let mut i: usize = 0;
        while i < batch.len()
            invariant
                i <= batch@.len(),
                self@ == merged_pmap(old(self)@, batch@.subrange(0, i as int)),
            decreases batch@.len() - i,
        {
            proof {
                assert(batch@.subrange(0, i + 1).drop_last() =~= batch@.subrange(0, i as int));
                assert(batch@.subrange(0, i + 1).last() == batch@[i as int]);
            }
            match &batch[i] {
                BaoContentItem::Parent { start, count, pair } => {
                    self.insert(*start, *count, *pair);
                },
                BaoContentItem::Leaf { .. } => {
                },
            }
            i += 1;
        }
        proof {
            assert(batch@.subrange(0, batch@.len() as int) =~= batch@);
        }
    }
}

/// Read access to a region of persisted inner tree nodes: what the Merkle
/// path check walks over. The node map is the abstract content; `load`
/// answers from it.
pub trait ParentReader {
    /// The inner tree nodes persisted so far.
    spec fn parents(&self) -> Map<(nat, nat), (Seq<u8>, Seq<u8>)>;

    /// Look up the pair persisted for the node covering `count` chunks from
    /// `start`.
    fn load(&self, start: u64, count: u64) -> (r: Option<HashPair>)
        ensures
            match r {
                Some(p) => node_of(self.parents(), (start as nat, count as nat)) == Some(p@),
                None => node_of(self.parents(), (start as nat, count as nat)) is None,
            },
    ;
}

impl ParentReader for ParentStore {
    open spec fn parents(&self) -> Map<(nat, nat), (Seq<u8>, Seq<u8>)> {
        self@
    }

    fn load(&self, start: u64, count: u64) -> (r: Option<HashPair>) {
        self.get(start, count)
    }
}

/// Look one node up in the parents seen through a batch: the batch's last
/// parent for the node wins, the region answers otherwise.
pub fn lookup_merged<R: ParentReader>(
    parents: &R,
    batch: &Vec<BaoContentItem>,
    start: u64,
    count: u64,
) -> (r: Option<HashPair>)
    ensures
        match r {
            Some(p) => node_of(merged_pmap(parents.parents(), batch@), (start as nat, count as nat))
                == Some(p@),
            None => node_of(
                merged_pmap(parents.parents(), batch@),
                (start as nat, count as nat),
            ) is None,
        },
{
    proof {
        assert(batch@.subrange(0, batch@.len() as int) =~= batch@);
    }
    let mut i: usize = batch.len();
    while i > 0
        invariant
            i <= batch@.len(),
            node_of(merged_pmap(parents.parents(), batch@), (start as nat, count as nat))
                == node_of(
                merged_pmap(parents.parents(), batch@.subrange(0, i as int)),
                (start as nat, count as nat),
            ),
        decreases i,
    {
        i = i - 1;
        proof {
            assert(batch@.subrange(0, i + 1).drop_last() =~= batch@.subrange(0, i as int));
            assert(batch@.subrange(0, i + 1).last() == batch@[i as int]);
        }
        match &batch[i] {
            BaoContentItem::Parent { start: s, count: c, pair } => {
                if *s == start && *c == count {
                    return Some(*pair);
                }
            },
            BaoContentItem::Leaf { .. } => {
            },
        }
    }
    proof {
        assert(batch@.subrange(0, 0) =~= Seq::<BaoContentItem>::empty());
    }
    parents.load(start, count)
}

/// The Merkle path from the node covering chunks `[start, start + n)`, whose
/// hash must be `expected`, down to leaf `chunk` with leaf hash `leaf`,
/// checks out against the parents in `m`: every inner node on the path has
/// its pair recorded, each pair hashes to the hash expected of its node, and
/// the leaf hash stands at the leaf.
pub open spec fn leaf_chains(
    m: Map<(nat, nat), (Seq<u8>, Seq<u8>)>,
    expected: Seq<u8>,
    start: nat,
    n: nat,
    is_root: bool,
    chunk: nat,
    leaf: Seq<u8>,
) -> bool
    recommends
        n >= 1,
        start <= chunk < start + n,
    decreases n,
{
    if n <= 1 {
        leaf == expected
    } else {
        proof {
            lemma_pot_below(n);
        }
        let l = pot_below(n);
        &&& m.contains_key((start, n))
        &&& expected == parent_hash_of(m[(start, n)].0, m[(start, n)].1, is_root)
        &&& if chunk < start + l {
            leaf_chains(m, m[(start, n)].0, start, l, false, chunk, leaf)
        } else {
            leaf_chains(m, m[(start, n)].1, (start + l) as nat, (n - l) as nat, false, chunk, leaf)
        }
    }
}

/// Walk the tree from the root down to `chunk` and check the Merkle path,
/// reading parents through the batch.
pub fn verify_path<R: ParentReader>(
    parents: &R,
    batch: &Vec<BaoContentItem>,
    expected: &BlobHash,
    start: u64,
    n: u64,
    is_root: bool,
    chunk: u64,
    leaf: &BlobHash,
) -> (r: bool)
    requires
        1 <= n,
        start + n < u64::MAX,
        start <= chunk < start + n,
    ensures
        r == leaf_chains(
            merged_pmap(parents.parents(), batch@),
            expected@,
            start as nat,
            n as nat,
            is_root,
            chunk as nat,
            leaf@,
        ),
    decreases n,
{
    if n == 1 {
        leaf == expected
    } else {
        proof {
            lemma_pot_below(n as nat);
        }
        let l = pot_below_of(n);
        match lookup_merged(parents, batch, start, n) {
            None => false,
            Some(pair) => {
                let ph = parent_hash(&pair.left, &pair.right, is_root);
                if !(ph == *expected) {
                    false
                } else if chunk < start + l {
                    verify_path(parents, batch, &pair.left, start, l, false, chunk, leaf)
                } else {
                    verify_path(parents, batch, &pair.right, start + l, n - l, false, chunk, leaf)
                }
            },
        }
    }
}

/// The byte length of chunk `i` of a blob of `size` bytes.
pub open spec fn chunk_len(size: nat, i: nat) -> nat
    recommends
        i < num_chunks(size),
{
    if size >= (i + 1) * 1024 {
        1024
    } else if size >= i * 1024 {
        (size - i * 1024) as nat
    } else {
        0
    }
}

/// A leaf is well-formed for a declared size: chunk-aligned, inside the tree,
/// and exactly as long as its chunk.
pub open spec fn leaf_ok(size: u64, offset: u64, data: Seq<u8>) -> bool {
    &&& offset % 1024 == 0
    &&& (offset as nat) / 1024 < num_chunks(size as nat)
    &&& data.len() == chunk_len(size as nat, (offset as nat) / 1024)
}

/// Every leaf of a batch is well-formed for the declared size.
pub open spec fn batch_leaves_ok(size: u64, items: Seq<BaoContentItem>) -> bool {
    forall|i: int|
        0 <= i < items.len() ==> match #[trigger] items[i] {
            BaoContentItem::Leaf { offset, data } => leaf_ok(size, offset, data@),
            BaoContentItem::Parent { .. } => true,
        }
}

/// A leaf's Merkle path to the root checks out under a parents map.
pub open spec fn leaf_chain_ok(
    m: Map<(nat, nat), (Seq<u8>, Seq<u8>)>,
    root: Seq<u8>,
    size: u64,
    offset: u64,
    data: Seq<u8>,
) -> bool {
    leaf_chains(
        m,
        root,
        0,
        num_chunks(size as nat),
        true,
        (offset as nat) / 1024,
        chunk_hash_of((offset as nat) / 1024, data, num_chunks(size as nat) == 1),
    )
}

/// Every leaf of a batch chains to the root under a parents map.
pub open spec fn batch_chains(
    m: Map<(nat, nat), (Seq<u8>, Seq<u8>)>,
    root: Seq<u8>,
    size: u64,
    items: Seq<BaoContentItem>,
) -> bool {
    forall|i: int|
        0 <= i < items.len() ==> match #[trigger] items[i] {
            BaoContentItem::Leaf { offset, data } => leaf_chain_ok(m, root, size, offset, data@),
            BaoContentItem::Parent { .. } => true,
        }
}

/// The chunk map after persisting the leaves of a batch, in order.
pub open spec fn apply_leaves(chunks: Map<nat, Seq<u8>>, items: Seq<BaoContentItem>) -> Map<
    nat,
    Seq<u8>,
>
    decreases items.len(),
{
    if items.len() == 0 {
        chunks
    } else {
        let m = apply_leaves(chunks, items.drop_last());
        match items.last() {
            BaoContentItem::Leaf { offset, data } => m.insert((offset as nat) / 1024, data@),
            BaoContentItem::Parent { .. } => m,
        }
    }
}

/// Persisting leaves never loses a chunk: the chunk map only grows.
pub proof fn lemma_apply_leaves_monotone(chunks: Map<nat, Seq<u8>>, items: Seq<BaoContentItem>)
    ensures
        chunks.dom().subset_of(apply_leaves(chunks, items).dom()),
    decreases items.len(),
{
    if items.len() > 0 {
        lemma_apply_leaves_monotone(chunks, items.drop_last());
    }
}

/// The byte length of chunk `chunk`, on machine integers.
pub fn chunk_len_of(size: u64, chunk: u64) -> (r: u64)
    requires
        chunk < num_chunks(size as nat),
    ensures
        r == chunk_len(size as nat, chunk as nat),
{
    proof {
        if size > 0 {
            vstd::arithmetic::div_mod::lemma_fundamental_div_mod((size - 1) as int, 1024);
        }
    }
    proof {
        if size > 0 {
            assert(chunk * 1024 <= ((size - 1) / 1024) * 1024 <= size - 1);
        }
    }
    let base = chunk * CHUNK_SIZE;
    let rem = size - base;
    if rem >= CHUNK_SIZE {
        CHUNK_SIZE
    } else {
        rem
    }
}


/// Check one batch against a partial blob's declared size and root hash:
/// exactly the acceptance test of spec'd batch writing. `Ok` when the
/// declared size matches, every leaf is well-formed for it, and every leaf's
/// Merkle path, drawn from the persisted parents plus those of this batch,
/// hashes back to the root; `InvalidArgument` on a size change or a
/// malformed leaf; `InvalidData` when a leaf does not chain. Nothing is
/// written.
pub fn check_batch<R: ParentReader>(
    parents: &R,
    root: &BlobHash,
    size_expected: u64,
    size: u64,
    batch: &Vec<BaoContentItem>,
) -> (r: Result<(), StoreError>)
    ensures
        match r {
            Ok(()) => size == size_expected && batch_leaves_ok(size, batch@) && batch_chains(
                merged_pmap(parents.parents(), batch@),
                root@,
                size,
                batch@,
            ),
            Err(e) => e == StoreError::InvalidArgument && (size != size_expected
                || !batch_leaves_ok(size, batch@)) || e == StoreError::InvalidData && size
                == size_expected && batch_leaves_ok(size, batch@) && !batch_chains(
                merged_pmap(parents.parents(), batch@),
                root@,
                size,
                batch@,
            ),
        },
{
    if size != size_expected {
        return Err(StoreError::InvalidArgument);
    }
    let nc = num_chunks_of(size);
    proof {
        if size > 0 {
            vstd::arithmetic::div_mod::lemma_fundamental_div_mod((size - 1) as int, 1024);
        }
    }
    // first pass: every leaf must be well-formed for the declared size
    let mut j: usize = 0;
    while j < batch.len()
        invariant
            j <= batch@.len(),
            nc == num_chunks(size as nat),
            forall|i: int|
                0 <= i < j ==> match #[trigger] batch@[i] {
                    BaoContentItem::Leaf { offset, data } => leaf_ok(size, offset, data@),
                    BaoContentItem::Parent { .. } => true,
                },
        decreases batch@.len() - j,
    {
        match &batch[j] {
            BaoContentItem::Leaf { offset, data } => {
                if offset % CHUNK_SIZE != 0 {
                    return Err(StoreError::InvalidArgument);
                }
                let chunk = offset / CHUNK_SIZE;
                if chunk >= nc {
                    return Err(StoreError::InvalidArgument);
                }
                let want = chunk_len_of(size, chunk);
                if data.len() as u64 != want {
                    return Err(StoreError::InvalidArgument);
                }
            },
            BaoContentItem::Parent { .. } => {
            },
        }
        j += 1;
    }
    // second pass: every leaf must chain to the root
    let mut j: usize = 0;
    while j < batch.len()
        invariant
            j <= batch@.len(),
            size == size_expected,
            nc == num_chunks(size as nat),
            nc < u64::MAX,
            batch_leaves_ok(size, batch@),
            forall|i: int|
                0 <= i < j ==> match #[trigger] batch@[i] {
                    BaoContentItem::Leaf { offset, data } => leaf_chain_ok(
                        merged_pmap(parents.parents(), batch@),
                        root@,
                        size,
                        offset,
                        data@,
                    ),
                    BaoContentItem::Parent { .. } => true,
                },
        decreases batch@.len() - j,
    {
        match &batch[j] {
            BaoContentItem::Leaf { offset, data } => {
                let chunk = offset / CHUNK_SIZE;
                proof {
                    assert(chunk_len(size as nat, chunk as nat) <= 1024);
                }
                let leaf_h = chunk_hash(chunk, data.as_slice(), nc == 1);
                if !verify_path(parents, batch, root, 0, nc, true, chunk, &leaf_h) {
                    return Err(StoreError::InvalidData);
                }
            },
            BaoContentItem::Parent { .. } => {
            },
        }
        j += 1;
    }
    Ok(())
}

} // verus!
