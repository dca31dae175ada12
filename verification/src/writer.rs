//! Batch writers: the storage-layout abstraction under the partial-write
//! engine.
//!
//! A batch writer holds one blob's root hash and declared size, verifies
//! every batch against them, and persists accepted parents into an outboard
//! region and leaves into a data region. Two layouts exist: a combined
//! writer that delegates to a separate sink for each region, and a unified
//! writer that keeps both in one place. Both run the same acceptance check
//! and implement identical semantics, which the shared trait contract pins
//! down. A progress decorator reports one event per batch, carrying the
//! first leaf's offset and length.

use vstd::prelude::*;

use crate::batch::{BaoContentItem, HashPair, ParentStore, ParentReader, merged_pmap, apply_leaves,
    batch_leaves_ok, batch_chains, check_batch};
use crate::error::StoreError;
use crate::hash::BlobHash;
use crate::store::ChunkStore;

verus! {

/// An async-free batch interface for writing content items to a pair of data
/// and outboard regions, for one blob with a fixed root hash and declared
/// size.
///
/// `parents` and `chunks` are what the writer has persisted; `write_batch`
/// verifies a batch against the root and folds it in, `sync` flushes to
/// durable storage.
pub trait BaoBatchWriter {
    /// The root hash every accepted leaf must chain to.
    spec fn root(&self) -> Seq<u8>;

    /// The declared total size of the blob.
    spec fn size(&self) -> u64;

    /// The inner tree nodes persisted so far.
    spec fn parents(&self) -> Map<(nat, nat), (Seq<u8>, Seq<u8>)>;

    /// The chunks persisted so far, keyed by chunk index.
    spec fn chunks(&self) -> Map<nat, Seq<u8>>;

    /// True after a `sync` with no write since.
    spec fn synced(&self) -> bool;

    /// Persist one batch: its parents into the outboard region, its leaves
    /// into the data region, in batch order. A batch is accepted only when
    /// its declared size matches the writer's, its leaves are well-formed,
    /// and every leaf's Merkle path — persisted parents plus those of this
    /// batch — hashes back to the root. A batch is all or nothing: on
    /// failure the regions either kept their old content or, when a
    /// decorator failed after its inner writer, took the whole accepted
    /// batch.
    fn write_batch(&mut self, size: u64, batch: &Vec<BaoContentItem>) -> (r: Result<
        (),
        StoreError,
    >)
        ensures
            final(self).root() == old(self).root(),
            final(self).size() == old(self).size(),
            r is Ok ==> size == old(self).size() && batch_leaves_ok(size, batch@) && batch_chains(
                merged_pmap(old(self).parents(), batch@),
                old(self).root(),
                size,
                batch@,
            ) && final(self).parents() == merged_pmap(old(self).parents(), batch@)
                && final(self).chunks() == apply_leaves(old(self).chunks(), batch@),
            r is Err ==> (final(self).parents() == old(self).parents() && final(self).chunks()
                == old(self).chunks()) || (size == old(self).size() && batch_leaves_ok(
                size,
                batch@,
            ) && batch_chains(
                merged_pmap(old(self).parents(), batch@),
                old(self).root(),
                size,
                batch@,
            ) && final(self).parents() == merged_pmap(old(self).parents(), batch@)
                && final(self).chunks() == apply_leaves(old(self).chunks(), batch@)),
    ;

    /// Flush to durable storage.
    fn sync(&mut self) -> (r: Result<(), StoreError>)
        ensures
            final(self).root() == old(self).root(),
            final(self).size() == old(self).size(),
            final(self).parents() == old(self).parents(),
            final(self).chunks() == old(self).chunks(),
            r is Ok ==> final(self).synced(),
    ;
}

/// A sink for the data region: bytes of chunks at their chunk index.
pub trait DataSink {
    /// The chunks persisted so far.
    spec fn chunks(&self) -> Map<nat, Seq<u8>>;

    /// True after a `sync` with no write since.
    spec fn synced(&self) -> bool;

    /// Persist the bytes of one chunk.
    fn write_chunk(&mut self, chunk: u64, data: &Vec<u8>)
        ensures
            final(self).chunks() == old(self).chunks().insert(chunk as nat, data@),
    ;

    /// Flush to durable storage.
    fn sync(&mut self) -> (r: Result<(), StoreError>)
        ensures
            final(self).chunks() == old(self).chunks(),
            r is Ok ==> final(self).synced(),
    ;
}

/// A sink for the outboard region: pairs of child hashes at their node,
/// readable back through `ParentReader` so that the Merkle path check can
/// walk previously persisted parents.
pub trait OutboardSink: ParentReader {
    /// True after a `sync` with no write since.
    spec fn synced(&self) -> bool;

    /// Persist the pair of one inner node.
    fn save(&mut self, start: u64, count: u64, pair: HashPair)
        ensures
            final(self).parents() == old(self).parents().insert(
                (start as nat, count as nat),
                (pair.left@, pair.right@),
            ),
    ;

    /// Flush to durable storage.
    fn sync(&mut self) -> (r: Result<(), StoreError>)
        ensures
            final(self).parents() == old(self).parents(),
            r is Ok ==> final(self).synced(),
    ;
}

/// A combined batch writer: one sink per region, verifying every batch
/// against the blob's root hash and declared size.
#[derive(Debug)]
pub struct CombinedBatchWriter<D, O> {
    /// The data part.
    pub data: D,
    /// The outboard part.
    pub outboard: O,
    /// The root hash every accepted leaf must chain to.
    pub hash: BlobHash,
    /// The declared total size of the blob.
    pub size: u64,
}

impl<D: DataSink, O: OutboardSink> BaoBatchWriter for CombinedBatchWriter<D, O> {
    open spec fn root(&self) -> Seq<u8> {
        self.hash@
    }

    open spec fn size(&self) -> u64 {
        self.size
    }

    open spec fn parents(&self) -> Map<(nat, nat), (Seq<u8>, Seq<u8>)> {
        self.outboard.parents()
    }

    open spec fn chunks(&self) -> Map<nat, Seq<u8>> {
        self.data.chunks()
    }

    open spec fn synced(&self) -> bool {
        self.data.synced() && self.outboard.synced()
    }

    /// Check the batch, then delegate parents to the outboard sink and
    /// leaves to the data sink. Accepted exactly when the size matches and
    /// every leaf verifies; a rejected batch leaves both regions unchanged,
    /// `InvalidArgument` for a size change or a malformed leaf,
    /// `InvalidData` for a leaf that does not chain to the root.
    fn write_batch(&mut self, size: u64, batch: &Vec<BaoContentItem>) -> (r: Result<
        (),
        StoreError,
    >)
        ensures
            (r is Ok <==> size == old(self).size && batch_leaves_ok(size, batch@) && batch_chains(
                merged_pmap(old(self).outboard.parents(), batch@),
                old(self).hash@,
                size,
                batch@,
            )),
            r is Err ==> final(self).outboard.parents() == old(self).outboard.parents()
                && final(self).data.chunks() == old(self).data.chunks() && (r->Err_0
                == StoreError::InvalidArgument
                && (size != old(self).size || !batch_leaves_ok(size, batch@)) || r->Err_0
                == StoreError::InvalidData && size == old(self).size && batch_leaves_ok(
                size,
                batch@,
            ) && !batch_chains(
                merged_pmap(old(self).outboard.parents(), batch@),
                old(self).hash@,
                size,
                batch@,
            )),
    {
        match check_batch(&self.outboard, &self.hash, self.size, size, batch) {
            Ok(()) => {},
            Err(e) => {
                return Err(e);
            },
        }
        let mut i: usize = 0;
        while i < batch.len()
            invariant
                i <= batch@.len(),
                self.hash == old(self).hash,
                self.size == old(self).size,
                self.outboard.parents() == merged_pmap(
                    old(self).outboard.parents(),
                    batch@.subrange(0, i as int),
                ),
                self.data.chunks() == apply_leaves(
                    old(self).data.chunks(),
                    batch@.subrange(0, i as int),
                ),
            decreases batch@.len() - i,
        {
            proof {
                assert(batch@.subrange(0, i + 1).drop_last() =~= batch@.subrange(0, i as int));
                assert(batch@.subrange(0, i + 1).last() == batch@[i as int]);
            }
            match &batch[i] {
                BaoContentItem::Parent { start, count, pair } => {
                    self.outboard.save(*start, *count, *pair);
                },
                BaoContentItem::Leaf { offset, data } => {
                    self.data.write_chunk(*offset / crate::tree::CHUNK_SIZE, data);
                },
            }
            i += 1;
        }
        proof {
            assert(batch@.subrange(0, batch@.len() as int) =~= batch@);
        }
        Ok(())
    }

    fn sync(&mut self) -> (r: Result<(), StoreError>) {
        let a = self.data.sync();
        let b = self.outboard.sync();
        if a.is_err() {
            a
        } else {
            b
        }
    }
}

/// A unified batch writer: both regions in the same backing store, verifying
/// every batch against the blob's root hash and declared size.
#[derive(Debug)]
pub struct UnifiedBatchWriter {
    hash: BlobHash,
    size: u64,
    parents: ParentStore,
    chunks: ChunkStore,
    synced: bool,
}

impl UnifiedBatchWriter {
    /// An empty unified writer for the blob with the given root hash and
    /// declared size.
    pub fn new(hash: BlobHash, size: u64) -> (r: UnifiedBatchWriter)
        ensures
            r.root() == hash@,
            r.size() == size,
            r.parents() == Map::<(nat, nat), (Seq<u8>, Seq<u8>)>::empty(),
            r.chunks() == Map::<nat, Seq<u8>>::empty(),
    {
        UnifiedBatchWriter {
            hash,
            size,
            parents: ParentStore::new(),
            chunks: ChunkStore::new(),
            synced: true,
        }
    }
}

impl BaoBatchWriter for UnifiedBatchWriter {
    closed spec fn root(&self) -> Seq<u8> {
        self.hash@
    }

    closed spec fn size(&self) -> u64 {
        self.size
    }

    closed spec fn parents(&self) -> Map<(nat, nat), (Seq<u8>, Seq<u8>)> {
        self.parents@
    }

    closed spec fn chunks(&self) -> Map<nat, Seq<u8>> {
        self.chunks@
    }

    closed spec fn synced(&self) -> bool {
        self.synced
    }

    /// Check the batch, then persist parents and leaves into the shared
    /// backing store. Accepted exactly when the size matches and every leaf
    /// verifies; a rejected batch changes nothing, `InvalidArgument` for a
    /// size change or a malformed leaf, `InvalidData` for a leaf that does
    /// not chain to the root.
    fn write_batch(&mut self, size: u64, batch: &Vec<BaoContentItem>) -> (r: Result<
        (),
        StoreError,
    >)
        ensures
            (r is Ok <==> size == old(self).size() && batch_leaves_ok(size, batch@)
                && batch_chains(
                merged_pmap(old(self).parents(), batch@),
                old(self).root(),
                size,
                batch@,
            )),
            r is Err ==> final(self).parents() == old(self).parents()
                && final(self).chunks() == old(self).chunks() && (r->Err_0
                == StoreError::InvalidArgument && (size != old(self).size() || !batch_leaves_ok(
                size,
                batch@,
            )) || r->Err_0 == StoreError::InvalidData && size == old(self).size()
                && batch_leaves_ok(size, batch@) && !batch_chains(
                merged_pmap(old(self).parents(), batch@),
                old(self).root(),
                size,
                batch@,
            )),
    {
        match check_batch(&self.parents, &self.hash, self.size, size, batch) {
            Ok(()) => {},
            Err(e) => {
                return Err(e);
            },
        }
        self.parents.merge_batch(batch);
        let mut i: usize = 0;
        while i < batch.len()
            invariant
                i <= batch@.len(),
                self.hash == old(self).hash,
                self.size == old(self).size,
                self.synced == old(self).synced,
                self.chunks@ == apply_leaves(old(self).chunks@, batch@.subrange(0, i as int)),
                self.parents@ == merged_pmap(old(self).parents@, batch@),
            decreases batch@.len() - i,
        {
            proof {
                assert(batch@.subrange(0, i + 1).drop_last() =~= batch@.subrange(0, i as int));
                assert(batch@.subrange(0, i + 1).last() == batch@[i as int]);
            }
            match &batch[i] {
                BaoContentItem::Leaf { offset, data } => {
                    self.chunks.insert(*offset / crate::tree::CHUNK_SIZE, crate::tags::clone_bytes(data));
                },
                BaoContentItem::Parent { .. } => {
                },
            }
            i += 1;
        }
        self.synced = false;
        proof {
            assert(batch@.subrange(0, batch@.len() as int) =~= batch@);
        }
        Ok(())
    }

    fn sync(&mut self) -> (r: Result<(), StoreError>)
        ensures
            r is Ok,
    {
        self.synced = true;
        Ok(())
    }
}

/// An in-memory data sink.
#[derive(Debug)]
pub struct MemDataSink {
    chunks: ChunkStore,
    synced: bool,
}

impl MemDataSink {
    /// An empty data sink.
    pub fn new() -> (r: MemDataSink)
        ensures
            r.chunks() == Map::<nat, Seq<u8>>::empty(),
    {
        MemDataSink { chunks: ChunkStore::new(), synced: true }
    }
}

impl DataSink for MemDataSink {
    closed spec fn chunks(&self) -> Map<nat, Seq<u8>> {
        self.chunks@
    }

    closed spec fn synced(&self) -> bool {
        self.synced
    }

    fn write_chunk(&mut self, chunk: u64, data: &Vec<u8>) {
        self.chunks.insert(chunk, crate::tags::clone_bytes(data));
        self.synced = false;
    }

    fn sync(&mut self) -> (r: Result<(), StoreError>)
        ensures
            r is Ok,
    {
        self.synced = true;
        Ok(())
    }
}

/// An in-memory outboard sink.
#[derive(Debug)]
pub struct MemOutboardSink {
    parents: ParentStore,
    synced: bool,
}

impl MemOutboardSink {
    /// An empty outboard sink.
    pub fn new() -> (r: MemOutboardSink)
        ensures
            r.parents() == Map::<(nat, nat), (Seq<u8>, Seq<u8>)>::empty(),
    {
        MemOutboardSink { parents: ParentStore::new(), synced: true }
    }
}

impl ParentReader for MemOutboardSink {
    closed spec fn parents(&self) -> Map<(nat, nat), (Seq<u8>, Seq<u8>)> {
        self.parents@
    }

    fn load(&self, start: u64, count: u64) -> (r: Option<HashPair>) {
        self.parents.get(start, count)
    }
}

impl OutboardSink for MemOutboardSink {
    closed spec fn synced(&self) -> bool {
        self.synced
    }

    fn save(&mut self, start: u64, count: u64, pair: HashPair) {
        self.parents.insert(start, count, pair);
        self.synced = false;
    }

    fn sync(&mut self) -> (r: Result<(), StoreError>)
        ensures
            r is Ok,
    {
        self.synced = true;
        Ok(())
    }
}

/// A callback that records one progress report per batch and may abort
/// further writes by failing.
pub trait ProgressHook {
    /// The reports taken so far, each an offset and a length.
    spec fn log(&self) -> Seq<(u64, u64)>;

    /// Take one report.
    fn on_write(&mut self, offset: u64, len: u64) -> (r: Result<(), StoreError>)
        ensures
            r is Ok ==> final(self).log() == old(self).log().push((offset, len)),
            r is Err ==> final(self).log() == old(self).log(),
    ;
}

/// A progress hook that records every report.
#[derive(Debug)]
pub struct VecProgress {
    entries: Vec<(u64, u64)>,
}

impl VecProgress {
    /// A fresh, empty hook.
    pub fn new() -> (r: VecProgress)
        ensures
            r.log() == Seq::<(u64, u64)>::empty(),
    {
        VecProgress { entries: Vec::new() }
    }

    /// The reports taken so far.
    pub fn entries(&self) -> (r: &Vec<(u64, u64)>)
        ensures
            r@ == self.log(),
    {
        &self.entries
    }
}

impl ProgressHook for VecProgress {
    closed spec fn log(&self) -> Seq<(u64, u64)> {
        self.entries@
    }

    fn on_write(&mut self, offset: u64, len: u64) -> (r: Result<(), StoreError>)
        ensures
            r is Ok,
    {
        self.entries.push((offset, len));
        Ok(())
    }
}

/// A progress hook with a budget: it records reports while the budget lasts
/// and fails once it is spent, aborting the writes it decorates.
#[derive(Debug)]
pub struct BoundedProgress {
    entries: Vec<(u64, u64)>,
    left: u64,
}

impl BoundedProgress {
    /// How many reports the hook will still accept.
    pub closed spec fn budget(&self) -> u64 {
        self.left
    }

    /// A hook that accepts `budget` reports.
    pub fn new(budget: u64) -> (r: BoundedProgress)
        ensures
            r.log() == Seq::<(u64, u64)>::empty(),
            r.budget() == budget,
    {
        BoundedProgress { entries: Vec::new(), left: budget }
    }

    /// The reports taken so far.
    pub fn entries(&self) -> (r: &Vec<(u64, u64)>)
        ensures
            r@ == self.log(),
    {
        &self.entries
    }
}

impl ProgressHook for BoundedProgress {
    closed spec fn log(&self) -> Seq<(u64, u64)> {
        self.entries@
    }

    fn on_write(&mut self, offset: u64, len: u64) -> (r: Result<(), StoreError>)
        ensures
            r is Ok <==> old(self).budget() > 0,
            r is Ok ==> final(self).budget() == old(self).budget() - 1,
            r is Err ==> r->Err_0 == StoreError::Cancelled && final(self).budget() == old(
                self,
            ).budget(),
    {
        if self.left == 0 {
            return Err(StoreError::Cancelled);
        }
        self.left = self.left - 1;
        self.entries.push((offset, len));
        Ok(())
    }
}

/// The first leaf of a batch, as offset and length, if any.
pub open spec fn first_leaf(items: Seq<BaoContentItem>) -> Option<(u64, u64)>
    decreases items.len(),
{
    if items.len() == 0 {
        None
    } else {
        match items.first() {
            BaoContentItem::Leaf { offset, data } => Some((offset, data@.len() as u64)),
            BaoContentItem::Parent { .. } => first_leaf(items.drop_first()),
        }
    }
}

/// A wrapper around a batch writer that reports one progress event per
/// batch, carrying the first leaf's offset and length. A failing report
/// aborts further writes.
#[derive(Debug)]
pub struct FallibleProgressBatchWriter<W, F>(pub W, pub F);

impl<W: BaoBatchWriter, F: ProgressHook> FallibleProgressBatchWriter<W, F> {
    /// Wrap `inner` so that `on_write` hears about each batch's first leaf.
    pub fn new(inner: W, on_write: F) -> (r: FallibleProgressBatchWriter<W, F>)
        ensures
            r.0 == inner,
            r.1 == on_write,
    {
        FallibleProgressBatchWriter(inner, on_write)
    }

    /// Return the inner writer.
    pub fn into_inner(self) -> (r: W)
        ensures
            r == self.0,
    {
        self.0
    }
}

impl<W: BaoBatchWriter, F: ProgressHook> BaoBatchWriter for FallibleProgressBatchWriter<W, F> {
    open spec fn root(&self) -> Seq<u8> {
        self.0.root()
    }

    open spec fn size(&self) -> u64 {
        self.0.size()
    }

    open spec fn parents(&self) -> Map<(nat, nat), (Seq<u8>, Seq<u8>)> {
        self.0.parents()
    }

    open spec fn chunks(&self) -> Map<nat, Seq<u8>> {
        self.0.chunks()
    }

    open spec fn synced(&self) -> bool {
        self.0.synced()
    }

    /// Write the batch through the inner writer, then report the first
    /// leaf's offset and length to the hook; the hook's failure is the
    /// caller's signal to stop writing.
    fn write_batch(&mut self, size: u64, batch: &Vec<BaoContentItem>) -> (r: Result<
        (),
        StoreError,
    >)
        ensures
            r is Ok ==> match first_leaf(batch@) {
                Some(p) => final(self).1.log() == old(self).1.log().push(p),
                None => final(self).1.log() == old(self).1.log(),
            },
            r is Err ==> final(self).1.log() == old(self).1.log(),
    {
        // find the offset and length of the first (usually only) leaf
        let mut chunk: Option<(u64, u64)> = None;
        proof {
            assert(batch@.subrange(0, batch@.len() as int) =~= batch@);
        }
        let mut i: usize = 0;
        while i < batch.len() && chunk.is_none()
            invariant
                i <= batch@.len(),
                chunk is None ==> first_leaf(batch@) == first_leaf(
                    batch@.subrange(i as int, batch@.len() as int),
                ),
                chunk matches Some(p) ==> first_leaf(batch@) == Some(p),
            decreases batch@.len() - i,
        {
            proof {
                let tail = batch@.subrange(i as int, batch@.len() as int);
                assert(tail.first() == batch@[i as int]);
                assert(tail.drop_first() =~= batch@.subrange(i + 1, batch@.len() as int));
            }
            match &batch[i] {
                BaoContentItem::Leaf { offset, data } => {
                    chunk = Some((*offset, data.len() as u64));
                },
                BaoContentItem::Parent { .. } => {
                },
            }
            i += 1;
        }
        proof {
            if chunk is None {
                assert(batch@.subrange(i as int, batch@.len() as int) =~= Seq::<
                    BaoContentItem,
                >::empty());
            }
        }
        let r = self.0.write_batch(size, batch);
        if r.is_err() {
            return r;
        }
        // report the first leaf, if the batch carried one
        match chunk {
            Some((offset, len)) => {
                self.1.on_write(offset, len)
            },
            None => Ok(()),
        }
    }

    fn sync(&mut self) -> (r: Result<(), StoreError>)
        ensures
            final(self).1.log() == old(self).1.log(),
    {
        self.0.sync()
    }
}

} // verus!
