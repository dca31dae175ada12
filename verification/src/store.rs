//! The blob store: complete entries, partial entries, tags, temporary pins
//! and the garbage collector's live set.
//!
//! Every mutating operation states the store model it leaves behind as a
//! function of the model it found, so that the behaviour of any sequence of
//! operations is pinned down.

use vstd::prelude::*;

use crate::batch::{BaoContentItem, ParentStore, merged_pmap, chunk_len, batch_leaves_ok,
    batch_chains, apply_leaves, chunk_len_of, check_batch};
use crate::error::StoreError;
use crate::hash::{BlobFormat, BlobHash, HashAndFormat};
use crate::tags::{Tag, TempTag, MAX_TAG_LEN, clone_bytes};
use crate::tree::{num_chunks, num_chunks_of, blob_hash, outboard_bytes, compute_outboard,
    CHUNK_SIZE};

verus! {

/// The availability status of an entry in a store.
#[derive(Debug, Clone, Eq, PartialEq, Structural)]
pub enum EntryStatus {
    /// The entry is completely available.
    Complete,
    /// The entry is partially available.
    Partial,
    /// The entry is not in the store.
    NotFound,
}

/// The verified chunks persisted for one partial blob, keyed by chunk index.
#[derive(Debug)]
pub struct ChunkStore {
    entries: Vec<(u64, Vec<u8>)>,
}

/// The map from chunk indices to chunk bytes held by a sequence of stored
/// chunks; a later entry for the same index wins.
pub open spec fn chunk_map_of(s: Seq<(u64, Seq<u8>)>) -> Map<nat, Seq<u8>>
    decreases s.len(),
{
    if s.len() == 0 {
        Map::empty()
    } else {
        chunk_map_of(s.drop_last()).insert(s.last().0 as nat, s.last().1)
    }
}

impl View for ChunkStore {
    type V = Map<nat, Seq<u8>>;

    closed spec fn view(&self) -> Map<nat, Seq<u8>> {
        chunk_map_of(self.entries@.map_values(|e: (u64, Vec<u8>)| (e.0, e.1@)))
    }
}

impl ChunkStore {
    /// An empty chunk store.
    pub fn new() -> (r: ChunkStore)
        ensures
            r@ == Map::<nat, Seq<u8>>::empty(),
    {
        let r = ChunkStore { entries: Vec::new() };
        proof {
            assert(r.entries@.map_values(|e: (u64, Vec<u8>)| (e.0, e.1@)) =~= Seq::empty());
        }
        r
    }

    /// The bytes stored for chunk `chunk`, if any.
    pub fn get(&self, chunk: u64) -> (r: Option<&Vec<u8>>)
        ensures
            match r {
                Some(d) => self@.contains_key(chunk as nat) && self@[chunk as nat] == d@,
                None => !self@.contains_key(chunk as nat),
            },
    {
        let ghost vs = self.entries@.map_values(|e: (u64, Vec<u8>)| (e.0, e.1@));
        proof {
            assert(vs.subrange(0, vs.len() as int) =~= vs);
        }
        let mut i: usize = self.entries.len();
        while i > 0
            invariant
                i <= self.entries@.len(),
                vs == self.entries@.map_values(|e: (u64, Vec<u8>)| (e.0, e.1@)),
                chunk_map_of(vs).contains_key(chunk as nat) == chunk_map_of(
                    vs.subrange(0, i as int),
                ).contains_key(chunk as nat),
                chunk_map_of(vs).contains_key(chunk as nat) ==> chunk_map_of(vs)[chunk as nat]
                    == chunk_map_of(vs.subrange(0, i as int))[chunk as nat],
            decreases i,
        {
            i = i - 1;
            proof {
                assert(vs.subrange(0, i + 1).drop_last() =~= vs.subrange(0, i as int));
                assert(vs.subrange(0, i + 1).last() == vs[i as int]);
            }
            if self.entries[i].0 == chunk {
                return Some(&self.entries[i].1);
            }
        }
        proof {
            assert(vs.subrange(0, 0) =~= Seq::<(u64, Seq<u8>)>::empty());
        }
        None
    }

    /// True if chunk `chunk` is stored.
    pub fn contains(&self, chunk: u64) -> (r: bool)
        ensures
            r == self@.contains_key(chunk as nat),
    {
        self.get(chunk).is_some()
    }

    /// Store the bytes of chunk `chunk`.
    pub fn insert(&mut self, chunk: u64, data: Vec<u8>)
        ensures
            final(self)@ == old(self)@.insert(chunk as nat, data@),
    {
        self.entries.push((chunk, data));
        proof {
            let vs = self.entries@.map_values(|e: (u64, Vec<u8>)| (e.0, e.1@));
            assert(vs.drop_last() =~= old(self).entries@.map_values(
                |e: (u64, Vec<u8>)| (e.0, e.1@),
            ));
        }
    }
}

/// A blob that is completely present: its bytes and its outboard.
#[derive(Debug)]
pub struct CompleteEntry {
    /// The blob's hash.
    pub hash: BlobHash,
    /// The blob's bytes.
    pub data: Vec<u8>,
    /// The blob's outboard: size prefix plus pre-order inner-node pairs.
    pub outboard: Vec<u8>,
}

impl CompleteEntry {
    /// The hash of the entry.
    pub fn hash(&self) -> (r: &BlobHash)
        ensures
            r@ == self.hash@,
    {
        &self.hash
    }

    /// The size of the entry in bytes.
    pub fn size(&self) -> (r: usize)
        ensures
            r == self.data@.len(),
    {
        self.data.len()
    }

    /// Complete entries are complete.
    pub fn is_complete(&self) -> (r: bool)
        ensures
            r,
    {
        true
    }

    /// Read `len` bytes at byte offset `offset`, fewer only at the end of the
    /// blob: the random-access read surface of a complete entry.
    pub fn read_at(&self, offset: u64, len: usize) -> (r: Vec<u8>)
        ensures
            r@ == read_spec(self.data@, offset as nat, len as nat),
    {
        let total = self.data.len();
        let lo = if offset > total as u64 {
            total
        } else {
            offset as usize
        };
        let hi = if len > total - lo {
            total
        } else {
            lo + len
        };
        let mut out: Vec<u8> = Vec::new();
        let mut i: usize = lo;
        while i < hi
            invariant
                lo <= i <= hi <= self.data@.len(),
                out@ == self.data@.subrange(lo as int, i as int),
            decreases hi - i,
        {
            out.push(self.data[i]);
            proof {
                assert(out@ =~= self.data@.subrange(lo as int, i + 1));
            }
            i += 1;
        }
        proof {
            assert(out@ =~= read_spec(self.data@, offset as nat, len as nat));
        }
        out
    }
}

/// What a random-access read returns: the bytes from `offset` to `offset +
/// len`, clipped to the end of the blob.
pub open spec fn read_spec(data: Seq<u8>, offset: nat, len: nat) -> Seq<u8> {
    let lo = if offset > data.len() {
        data.len()
    } else {
        offset
    };
    let hi = if lo + len > data.len() {
        data.len()
    } else {
        lo + len
    };
    data.subrange(lo as int, hi as int)
}

/// A blob under construction: its declared size, the parents persisted so
/// far and the verified chunks persisted so far.
#[derive(Debug)]
pub struct PartialEntry {
    /// The blob's hash: the root every accepted chunk verifies against.
    pub hash: BlobHash,
    /// The declared total size in bytes.
    pub size: u64,
    /// The inner tree nodes persisted so far.
    pub parents: ParentStore,
    /// The verified chunks persisted so far.
    pub chunks: ChunkStore,
}

impl PartialEntry {
    /// The hash of the entry.
    pub fn hash(&self) -> (r: &BlobHash)
        ensures
            r@ == self.hash@,
    {
        &self.hash
    }

    /// The declared size of the entry in bytes.
    pub fn size(&self) -> (r: u64)
        ensures
            r == self.size,
    {
        self.size
    }

    /// Partial entries are not complete.
    pub fn is_complete(&self) -> (r: bool)
        ensures
            !r,
    {
        false
    }
}

/// The model of one partial entry: declared size, parents, chunks.
pub open spec fn partial_model(e: &PartialEntry) -> (u64, Map<(nat, nat), (Seq<u8>, Seq<u8>)>, Map<
    nat,
    Seq<u8>,
>) {
    (e.size, e.parents@, e.chunks@)
}

/// An entry that may be complete or partial, or missing.
#[derive(Debug)]
pub enum PossiblyPartialEntry<'a> {
    /// A complete entry.
    Complete(&'a CompleteEntry),
    /// A partial entry.
    Partial(&'a PartialEntry),
    /// We got nothing.
    NotFound,
}

} // verus!

use vstd::prelude::*;

verus! {

/// The model of a whole store: what every contract in this crate speaks of.
pub struct StoreModel {
    /// Complete blobs: hash to (data, outboard).
    pub complete: Map<Seq<u8>, (Seq<u8>, Seq<u8>)>,
    /// Partial blobs: hash to (declared size, parents, chunks).
    pub partial: Map<Seq<u8>, (u64, Map<(nat, nat), (Seq<u8>, Seq<u8>)>, Map<nat, Seq<u8>>)>,
    /// Tags: name to target.
    pub tags: Map<Seq<u8>, (Seq<u8>, BlobFormat)>,
    /// Temporary pins, one per outstanding handle.
    pub temp: Seq<(Seq<u8>, BlobFormat)>,
    /// The live set the garbage collector consults.
    pub live: Set<Seq<u8>>,
}

/// The map held by a sequence of key-value pairs; a later pair for the same
/// key wins.
pub open spec fn kv_map_of<K, V>(s: Seq<(K, V)>) -> Map<K, V>
    decreases s.len(),
{
    if s.len() == 0 {
        Map::empty()
    } else {
        kv_map_of(s.drop_last()).insert(s.last().0, s.last().1)
    }
}

/// A key is in the map exactly when some pair carries it.
pub proof fn lemma_kv_contains<K, V>(s: Seq<(K, V)>, k: K)
    ensures
        kv_map_of(s).contains_key(k) <==> exists|i: int| 0 <= i < s.len() && s[i].0 == k,
    decreases s.len(),
{
    if s.len() > 0 {
        lemma_kv_contains(s.drop_last(), k);
        if s.last().0 == k {
            assert(s[s.len() - 1].0 == k);
        } else if kv_map_of(s).contains_key(k) {
            let i = choose|i: int| 0 <= i < s.drop_last().len() && s.drop_last()[i].0 == k;
            assert(s[i].0 == k);
        } else {
            assert forall|i: int| 0 <= i < s.len() implies s[i].0 != k by {
                if i < s.len() - 1 {
                    assert(s.drop_last()[i].0 == s[i].0);
                }
            }
        }
    }
}

/// Updating the value of the last pair that carries a key updates the map at
/// that key.
pub proof fn lemma_kv_update_last<K, V>(s: Seq<(K, V)>, i: int, v: V)
    requires
        0 <= i < s.len(),
        forall|j: int| i < j < s.len() ==> s[j].0 != s[i].0,
    ensures
        kv_map_of(s.update(i, (s[i].0, v))) == kv_map_of(s).insert(s[i].0, v),
    decreases s.len(),
{
    let t = s.update(i, (s[i].0, v));
    if i == s.len() - 1 {
        assert(t.drop_last() =~= s.drop_last());
        assert(kv_map_of(t) =~= kv_map_of(s).insert(s[i].0, v));
    } else {
        assert(s.drop_last()[i] == s[i]);
        lemma_kv_update_last(s.drop_last(), i, v);
        assert(t.drop_last() =~= s.drop_last().update(i, (s[i].0, v)));
        assert(t.last() == s.last());
        assert(kv_map_of(t) =~= kv_map_of(s).insert(s[i].0, v));
    }
}

/// The set of hashes named by a sequence of hashes.
pub open spec fn lset_of(s: Seq<BlobHash>) -> Set<Seq<u8>>
    decreases s.len(),
{
    if s.len() == 0 {
        Set::empty()
    } else {
        lset_of(s.drop_last()).insert(s.last()@)
    }
}

/// A hash is in the set exactly when some element names it.
pub proof fn lemma_lset_contains(s: Seq<BlobHash>, h: Seq<u8>)
    ensures
        lset_of(s).contains(h) <==> exists|i: int| 0 <= i < s.len() && s[i]@ == h,
    decreases s.len(),
{
    if s.len() > 0 {
        lemma_lset_contains(s.drop_last(), h);
        if s.last()@ == h {
            assert(s[s.len() - 1]@ == h);
        } else if lset_of(s).contains(h) {
            let i = choose|i: int| 0 <= i < s.drop_last().len() && s.drop_last()[i]@ == h;
            assert(s[i]@ == h);
        } else {
            assert forall|i: int| 0 <= i < s.len() implies s[i]@ != h by {
                if i < s.len() - 1 {
                    assert(s.drop_last()[i] == s[i]);
                }
            }
        }
    }
}


/// The set of keys of a sequence of key-value pairs.
pub open spec fn keys_of<K, V>(s: Seq<(K, V)>) -> Set<K>
    decreases s.len(),
{
    if s.len() == 0 {
        Set::empty()
    } else {
        keys_of(s.drop_last()).insert(s.last().0)
    }
}

/// A key is in the key set exactly when some pair carries it.
pub proof fn lemma_keys_contains<K, V>(s: Seq<(K, V)>, k: K)
    ensures
        keys_of(s).contains(k) <==> exists|i: int| 0 <= i < s.len() && s[i].0 == k,
    decreases s.len(),
{
    if s.len() > 0 {
        lemma_keys_contains(s.drop_last(), k);
        if s.last().0 == k {
            assert(s[s.len() - 1].0 == k);
        } else if keys_of(s).contains(k) {
            let i = choose|i: int| 0 <= i < s.drop_last().len() && s.drop_last()[i].0 == k;
            assert(s[i].0 == k);
        } else {
            assert forall|i: int| 0 <= i < s.len() implies s[i].0 != k by {
                if i < s.len() - 1 {
                    assert(s.drop_last()[i].0 == s[i].0);
                }
            }
        }
    }
}

/// The key set is the domain of the map the pairs hold.
pub proof fn lemma_keys_dom<K, V>(s: Seq<(K, V)>)
    ensures
        keys_of(s) == kv_map_of(s).dom(),
    decreases s.len(),
{
    if s.len() == 0 {
        assert(keys_of(s) =~= kv_map_of(s).dom());
    } else {
        lemma_keys_dom(s.drop_last());
        assert(keys_of(s) =~= kv_map_of(s).dom());
    }
}

/// Peeling the first pair off splits its key out of the key set.
pub proof fn lemma_keys_first<K, V>(s: Seq<(K, V)>)
    requires
        s.len() > 0,
    ensures
        keys_of(s) == keys_of(s.drop_first()).insert(s.first().0),
    decreases s.len(),
{
    if s.len() == 1 {
        assert(s.drop_first() =~= Seq::<(K, V)>::empty());
        assert(s.drop_last() =~= Seq::<(K, V)>::empty());
        assert(s.first() == s.last());
        assert(keys_of(s) =~= keys_of(s.drop_first()).insert(s.first().0));
    } else {
        assert(s.drop_last().first() == s.first());
        lemma_keys_first(s.drop_last());
        assert(s.drop_first().drop_last() =~= s.drop_last().drop_first());
        assert(s.drop_first().last() == s.last());
        assert(keys_of(s) == keys_of(s.drop_last()).insert(s.last().0));
        assert(keys_of(s.drop_first()) == keys_of(s.drop_first().drop_last()).insert(
            s.drop_first().last().0,
        ));
        assert(keys_of(s) =~= keys_of(s.drop_first()).insert(s.first().0));
    }
}

/// The views of a sequence of hash-format pairs.
pub open spec fn haf_views(s: Seq<HashAndFormat>) -> Seq<(Seq<u8>, BlobFormat)> {
    s.map_values(|h: HashAndFormat| h@)
}

/// The set of values named by a sequence of hash-format views.
pub open spec fn vset_of(s: Seq<(Seq<u8>, BlobFormat)>) -> Set<(Seq<u8>, BlobFormat)>
    decreases s.len(),
{
    if s.len() == 0 {
        Set::empty()
    } else {
        vset_of(s.drop_last()).insert(s.last())
    }
}

/// A value is in the set exactly when some element equals it.
pub proof fn lemma_vset_contains(s: Seq<(Seq<u8>, BlobFormat)>, x: (Seq<u8>, BlobFormat))
    ensures
        vset_of(s).contains(x) <==> exists|i: int| 0 <= i < s.len() && s[i] == x,
    decreases s.len(),
{
    if s.len() > 0 {
        lemma_vset_contains(s.drop_last(), x);
        if s.last() == x {
            assert(s[s.len() - 1] == x);
        } else if vset_of(s).contains(x) {
            let i = choose|i: int| 0 <= i < s.drop_last().len() && s.drop_last()[i] == x;
            assert(s[i] == x);
        } else {
            assert forall|i: int| 0 <= i < s.len() implies s[i] != x by {
                if i < s.len() - 1 {
                    assert(s.drop_last()[i] == s[i]);
                }
            }
        }
    }
}

/// The pairs a sequence of complete entries stands for.
pub open spec fn complete_kvs(s: Seq<CompleteEntry>) -> Seq<(Seq<u8>, (Seq<u8>, Seq<u8>))> {
    s.map_values(|e: CompleteEntry| (e.hash@, (e.data@, e.outboard@)))
}

/// The pairs a sequence of partial entries stands for.
pub open spec fn partial_kvs(s: Seq<PartialEntry>) -> Seq<
    (Seq<u8>, (u64, Map<(nat, nat), (Seq<u8>, Seq<u8>)>, Map<nat, Seq<u8>>)),
> {
    s.map_values(|e: PartialEntry| (e.hash@, (e.size, e.parents@, e.chunks@)))
}

/// The pairs a sequence of tag entries stands for.
pub open spec fn tag_kvs(s: Seq<(Tag, HashAndFormat)>) -> Seq<(Seq<u8>, (Seq<u8>, BlobFormat))> {
    s.map_values(|e: (Tag, HashAndFormat)| (e.0@, e.1@))
}

/// A content-addressed blob store with partial downloads, tags, temporary
/// pins and a garbage collector.
#[derive(Debug)]
pub struct Store {
    complete: Vec<CompleteEntry>,
    partial: Vec<PartialEntry>,
    tags: Vec<(Tag, HashAndFormat)>,
    temp: Vec<HashAndFormat>,
    live: Vec<BlobHash>,
    tag_counter: u64,
}

impl View for Store {
    type V = StoreModel;

    closed spec fn view(&self) -> StoreModel {
        StoreModel {
            complete: kv_map_of(complete_kvs(self.complete@)),
            partial: kv_map_of(partial_kvs(self.partial@)),
            tags: kv_map_of(tag_kvs(self.tags@)),
            temp: haf_views(self.temp@),
            live: lset_of(self.live@),
        }
    }
}

impl Store {
    /// An empty store.
    pub fn new() -> (r: Store)
        ensures
            r@.complete == Map::<Seq<u8>, (Seq<u8>, Seq<u8>)>::empty(),
            r@.partial == Map::<
                Seq<u8>,
                (u64, Map<(nat, nat), (Seq<u8>, Seq<u8>)>, Map<nat, Seq<u8>>),
            >::empty(),
            r@.tags == Map::<Seq<u8>, (Seq<u8>, BlobFormat)>::empty(),
            r@.temp == Seq::<(Seq<u8>, BlobFormat)>::empty(),
            r@.live == Set::<Seq<u8>>::empty(),
    {
        let r = Store {
            complete: Vec::new(),
            partial: Vec::new(),
            tags: Vec::new(),
            temp: Vec::new(),
            live: Vec::new(),
            tag_counter: 0,
        };
        proof {
            assert(complete_kvs(r.complete@) =~= Seq::empty());
            assert(partial_kvs(r.partial@) =~= Seq::empty());
            assert(tag_kvs(r.tags@) =~= Seq::empty());
            assert(r.temp@.map_values(|h: HashAndFormat| h@) =~= Seq::empty());
        }
        r
    }

    /// Find the last complete entry for a hash, if any.
    fn find_complete(&self, hash: &BlobHash) -> (r: Option<usize>)
        ensures
            match r {
                Some(i) => {
                    &&& i < self.complete@.len()
                    &&& self.complete@[i as int].hash@ == hash@
                    &&& self@.complete.contains_key(hash@)
                    &&& self@.complete[hash@] == (
                        self.complete@[i as int].data@,
                        self.complete@[i as int].outboard@,
                    )
                    &&& forall|j: int|
                        i < j < self.complete@.len() ==> self.complete@[j].hash@ != hash@
                },
                None => !self@.complete.contains_key(hash@),
            },
    {
        let ghost vs = complete_kvs(self.complete@);
        proof {
            assert(vs.subrange(0, vs.len() as int) =~= vs);
        }
        let mut i: usize = self.complete.len();
        while i > 0
            invariant
                i <= self.complete@.len(),
                vs == complete_kvs(self.complete@),
                kv_map_of(vs).contains_key(hash@) == kv_map_of(
                    vs.subrange(0, i as int),
                ).contains_key(hash@),
                kv_map_of(vs).contains_key(hash@) ==> kv_map_of(vs)[hash@] == kv_map_of(
                    vs.subrange(0, i as int),
                )[hash@],
                forall|j: int| i <= j < self.complete@.len() ==> self.complete@[j].hash@ != hash@,
            decreases i,
        {
            i = i - 1;
            proof {
                assert(vs.subrange(0, i + 1).drop_last() =~= vs.subrange(0, i as int));
                assert(vs.subrange(0, i + 1).last() == vs[i as int]);
            }
            if self.complete[i].hash == *hash {
                return Some(i);
            }
        }
        proof {
            assert(vs.subrange(0, 0) =~= Seq::<(Seq<u8>, (Seq<u8>, Seq<u8>))>::empty());
        }
        None
    }

    /// Find the last partial entry for a hash, if any.
    fn find_partial(&self, hash: &BlobHash) -> (r: Option<usize>)
        ensures
            match r {
                Some(i) => {
                    &&& i < self.partial@.len()
                    &&& self.partial@[i as int].hash@ == hash@
                    &&& self@.partial.contains_key(hash@)
                    &&& self@.partial[hash@] == (
                        self.partial@[i as int].size,
                        self.partial@[i as int].parents@,
                        self.partial@[i as int].chunks@,
                    )
                    &&& forall|j: int| i < j < self.partial@.len() ==> self.partial@[j].hash@ != hash@
                },
                None => !self@.partial.contains_key(hash@),
            },
    {
        let ghost vs = partial_kvs(self.partial@);
        proof {
            assert(vs.subrange(0, vs.len() as int) =~= vs);
        }
        let mut i: usize = self.partial.len();
        while i > 0
            invariant
                i <= self.partial@.len(),
                vs == partial_kvs(self.partial@),
                kv_map_of(vs).contains_key(hash@) == kv_map_of(
                    vs.subrange(0, i as int),
                ).contains_key(hash@),
                kv_map_of(vs).contains_key(hash@) ==> kv_map_of(vs)[hash@] == kv_map_of(
                    vs.subrange(0, i as int),
                )[hash@],
                forall|j: int| i <= j < self.partial@.len() ==> self.partial@[j].hash@ != hash@,
            decreases i,
        {
            i = i - 1;
            proof {
                assert(vs.subrange(0, i + 1).drop_last() =~= vs.subrange(0, i as int));
                assert(vs.subrange(0, i + 1).last() == vs[i as int]);
            }
            if self.partial[i].hash == *hash {
                return Some(i);
            }
        }
        proof {
            assert(vs.subrange(0, 0) =~= Seq::<
                (Seq<u8>, (u64, Map<(nat, nat), (Seq<u8>, Seq<u8>)>, Map<nat, Seq<u8>>)),
            >::empty());
        }
        None
    }

    /// The availability of `hash`: complete, partial, or absent.
    pub fn entry_status(&self, hash: &BlobHash) -> (r: EntryStatus)
        ensures
            r == entry_status_spec(self@, hash@),
    {
        if self.find_complete(hash).is_some() {
            EntryStatus::Complete
        } else if self.find_partial(hash).is_some() {
            EntryStatus::Partial
        } else {
            EntryStatus::NotFound
        }
    }

    /// Look an entry up, whether complete or partial. Never blocks on
    /// anything: the classification is held in memory.
    pub fn get_possibly_partial(&self, hash: &BlobHash) -> (r: PossiblyPartialEntry<'_>)
        ensures
            match r {
                PossiblyPartialEntry::Complete(e) => self@.complete.contains_key(hash@)
                    && e.hash@ == hash@ && self@.complete[hash@] == (e.data@, e.outboard@),
                PossiblyPartialEntry::Partial(e) => !self@.complete.contains_key(hash@)
                    && self@.partial.contains_key(hash@) && e.hash@ == hash@ && self@.partial[hash@]
                    == (e.size, e.parents@, e.chunks@),
                PossiblyPartialEntry::NotFound => !self@.complete.contains_key(hash@)
                    && !self@.partial.contains_key(hash@),
            },
    {
        match self.find_complete(hash) {
            Some(i) => PossiblyPartialEntry::Complete(&self.complete[i]),
            None => match self.find_partial(hash) {
                Some(i) => PossiblyPartialEntry::Partial(&self.partial[i]),
                None => PossiblyPartialEntry::NotFound,
            },
        }
    }

    /// Look a complete entry up.
    pub fn get(&self, hash: &BlobHash) -> (r: Option<&CompleteEntry>)
        ensures
            match r {
                Some(e) => self@.complete.contains_key(hash@) && e.hash@ == hash@
                    && self@.complete[hash@] == (e.data@, e.outboard@),
                None => !self@.complete.contains_key(hash@),
            },
    {
        match self.find_complete(hash) {
            Some(i) => Some(&self.complete[i]),
            None => None,
        }
    }
}

/// What `entry_status` answers on a given model.
pub open spec fn entry_status_spec(m: StoreModel, h: Seq<u8>) -> EntryStatus {
    if m.complete.contains_key(h) {
        EntryStatus::Complete
    } else if m.partial.contains_key(h) {
        EntryStatus::Partial
    } else {
        EntryStatus::NotFound
    }
}

} // verus!

verus! {

/// Removing a pair whose key is `k` leaves the map unchanged once `k` is
/// removed from it.
pub proof fn lemma_kv_remove_idx<K, V>(s: Seq<(K, V)>, i: int, k: K)
    requires
        0 <= i < s.len(),
        s[i].0 == k,
    ensures
        kv_map_of(s.remove(i)).remove(k) == kv_map_of(s).remove(k),
    decreases s.len(),
{
    if i == s.len() - 1 {
        assert(s.remove(i) =~= s.drop_last());
        assert(kv_map_of(s.remove(i)).remove(k) =~= kv_map_of(s).remove(k));
    } else {
        let sdl = s.drop_last();
        assert(sdl[i] == s[i]);
        lemma_kv_remove_idx(sdl, i, k);
        assert(s.remove(i).drop_last() =~= sdl.remove(i));
        assert(s.remove(i).last() == s.last());
        let a = kv_map_of(sdl.remove(i));
        let b = kv_map_of(sdl);
        let l0 = s.last().0;
        let l1 = s.last().1;
        assert(kv_map_of(s.remove(i)) == a.insert(l0, l1));
        assert(kv_map_of(s) == b.insert(l0, l1));
        if l0 == k {
            assert(a.insert(l0, l1).remove(k) =~= a.remove(k));
            assert(b.insert(l0, l1).remove(k) =~= b.remove(k));
        } else {
            assert(a.insert(l0, l1).remove(k) =~= a.remove(k).insert(l0, l1));
            assert(b.insert(l0, l1).remove(k) =~= b.remove(k).insert(l0, l1));
        }
    }
}

/// A sequence with no pair for `k` maps to a map without `k`.
pub proof fn lemma_kv_absent<K, V>(s: Seq<(K, V)>, k: K)
    requires
        forall|i: int| 0 <= i < s.len() ==> s[i].0 != k,
    ensures
        !kv_map_of(s).contains_key(k),
    decreases s.len(),
{
    lemma_kv_contains(s, k);
}

impl Store {
    /// Drop every complete entry stored for `hash`.
    fn remove_complete_key(&mut self, hash: &BlobHash)
        ensures
            final(self)@.complete == old(self)@.complete.remove(hash@),
            final(self)@.partial == old(self)@.partial,
            final(self)@.tags == old(self)@.tags,
            final(self)@.temp == old(self)@.temp,
            final(self)@.live == old(self)@.live,
            final(self).tag_counter == old(self).tag_counter,
    {
        let mut i: usize = 0;
        while i < self.complete.len()
            invariant
                i <= self.complete@.len(),
                forall|j: int| 0 <= j < i ==> self.complete@[j].hash@ != hash@,
                kv_map_of(complete_kvs(self.complete@)).remove(hash@) == kv_map_of(
                    complete_kvs(old(self).complete@),
                ).remove(hash@),
                self.partial == old(self).partial,
                self.tags == old(self).tags,
                self.temp == old(self).temp,
                self.live == old(self).live,
                self.tag_counter == old(self).tag_counter,
            decreases self.complete@.len() - i,
        {
            if self.complete[i].hash == *hash {
                let ghost pre = complete_kvs(self.complete@);
                self.complete.remove(i);
                proof {
                    assert(complete_kvs(self.complete@) =~= pre.remove(i as int));
                    lemma_kv_remove_idx(pre, i as int, hash@);
                }
            } else {
                i += 1;
            }
        }
        proof {
            lemma_kv_absent(complete_kvs(self.complete@), hash@);
            assert(kv_map_of(complete_kvs(self.complete@)) =~= kv_map_of(
                complete_kvs(self.complete@),
            ).remove(hash@));
        }
    }

    /// Drop every partial entry stored for `hash`.
    fn remove_partial_key(&mut self, hash: &BlobHash)
        ensures
            final(self)@.partial == old(self)@.partial.remove(hash@),
            final(self)@.complete == old(self)@.complete,
            final(self)@.tags == old(self)@.tags,
            final(self)@.temp == old(self)@.temp,
            final(self)@.live == old(self)@.live,
            final(self).tag_counter == old(self).tag_counter,
    {
        let mut i: usize = 0;
        while i < self.partial.len()
            invariant
                i <= self.partial@.len(),
                forall|j: int| 0 <= j < i ==> self.partial@[j].hash@ != hash@,
                kv_map_of(partial_kvs(self.partial@)).remove(hash@) == kv_map_of(
                    partial_kvs(old(self).partial@),
                ).remove(hash@),
                self.complete == old(self).complete,
                self.tags == old(self).tags,
                self.temp == old(self).temp,
                self.live == old(self).live,
                self.tag_counter == old(self).tag_counter,
            decreases self.partial@.len() - i,
        {
            if self.partial[i].hash == *hash {
                let ghost pre = partial_kvs(self.partial@);
                self.partial.remove(i);
                proof {
                    assert(partial_kvs(self.partial@) =~= pre.remove(i as int));
                    lemma_kv_remove_idx(pre, i as int, hash@);
                }
            } else {
                i += 1;
            }
        }
        proof {
            lemma_kv_absent(partial_kvs(self.partial@), hash@);
            assert(kv_map_of(partial_kvs(self.partial@)) =~= kv_map_of(
                partial_kvs(self.partial@),
            ).remove(hash@));
        }
    }

    /// Drop every tag entry stored for `name`.
    fn remove_tag_key(&mut self, name: &Vec<u8>)
        ensures
            final(self)@.tags == old(self)@.tags.remove(name@),
            final(self)@.complete == old(self)@.complete,
            final(self)@.partial == old(self)@.partial,
            final(self)@.temp == old(self)@.temp,
            final(self)@.live == old(self)@.live,
            final(self).tag_counter == old(self).tag_counter,
    {
        let mut i: usize = 0;
        while i < self.tags.len()
            invariant
                i <= self.tags@.len(),
                forall|j: int| 0 <= j < i ==> self.tags@[j].0@ != name@,
                kv_map_of(tag_kvs(self.tags@)).remove(name@) == kv_map_of(
                    tag_kvs(old(self).tags@),
                ).remove(name@),
                self.complete == old(self).complete,
                self.partial == old(self).partial,
                self.temp == old(self).temp,
                self.live == old(self).live,
                self.tag_counter == old(self).tag_counter,
            decreases self.tags@.len() - i,
        {
            let eq = self.tags[i].0.name == *name;
            proof {
                if eq {
                    assert(self.tags@[i as int].0.name@ =~= name@);
                }
            }
            if eq {
                let ghost pre = tag_kvs(self.tags@);
                self.tags.remove(i);
                proof {
                    assert(tag_kvs(self.tags@) =~= pre.remove(i as int));
                    lemma_kv_remove_idx(pre, i as int, name@);
                }
            } else {
                i += 1;
            }
        }
        proof {
            lemma_kv_absent(tag_kvs(self.tags@), name@);
            assert(kv_map_of(tag_kvs(self.tags@)) =~= kv_map_of(tag_kvs(self.tags@)).remove(
                name@,
            ));
        }
    }

    /// Import a blob from memory. The blob lands complete in the store under
    /// its computed hash, and the returned temp tag pins that hash until it
    /// is released.
    pub fn import_bytes(&mut self, bytes: Vec<u8>, format: BlobFormat) -> (r: Result<
        TempTag,
        StoreError,
    >)
        requires
            bytes@.len() <= u64::MAX,
        ensures
            r matches Ok(t) && t.target@ == (blob_hash(bytes@), format),
            final(self)@.complete == old(self)@.complete.insert(
                blob_hash(bytes@),
                (bytes@, outboard_bytes(bytes@)),
            ),
            final(self)@.partial == old(self)@.partial.remove(blob_hash(bytes@)),
            final(self)@.tags == old(self)@.tags,
            final(self)@.temp == old(self)@.temp.push((blob_hash(bytes@), format)),
            final(self)@.live == old(self)@.live,
    {
        let (outboard, root) = compute_outboard(&bytes);
        self.remove_partial_key(&root);
        let ghost pre = complete_kvs(self.complete@);
        self.complete.push(CompleteEntry { hash: root, data: bytes, outboard });
        proof {
            assert(complete_kvs(self.complete@).drop_last() =~= pre);
        }
        let target = HashAndFormat { hash: root, format };
        self.temp.push(target);
        proof {
            assert(self.temp@.map_values(|h: HashAndFormat| h@) =~= old(self).temp@.map_values(
                |h: HashAndFormat| h@,
            ).push((root@, format)));
        }
        Ok(TempTag { target })
    }

    /// The bytes of the complete blob `hash`: what an export to a file writes
    /// out. Fails with `NotFound` exactly when no complete entry exists.
    pub fn export_bytes(&self, hash: &BlobHash) -> (r: Result<Vec<u8>, StoreError>)
        ensures
            match r {
                Ok(d) => self@.complete.contains_key(hash@) && d@ == self@.complete[hash@].0,
                Err(e) => e == StoreError::NotFound && !self@.complete.contains_key(hash@),
            },
    {
        match self.find_complete(hash) {
            Some(i) => Ok(clone_bytes(&self.complete[i].data)),
            None => Err(StoreError::NotFound),
        }
    }

    /// Overwrite one byte of the stored data region of a complete entry,
    /// bypassing all verification. This models outside interference with the
    /// storage medium; `validate` exists to catch exactly this.
    pub fn set_data_byte(&mut self, hash: &BlobHash, at: usize, value: u8) -> (r: Result<
        (),
        StoreError,
    >)
        ensures
            match r {
                Ok(()) => old(self)@.complete.contains_key(hash@) && at < old(self)@.complete[hash@].0.len()
                    && final(self)@.complete == old(self)@.complete.insert(
                    hash@,
                    (
                        old(self)@.complete[hash@].0.update(at as int, value),
                        old(self)@.complete[hash@].1,
                    ),
                ),
                Err(e) => final(self)@ == old(self)@ && (e == StoreError::NotFound
                    && !old(self)@.complete.contains_key(hash@) || e == StoreError::InvalidArgument
                    && old(self)@.complete.contains_key(hash@) && at >= old(
                    self,
                )@.complete[hash@].0.len()),
            },
            final(self)@.partial == old(self)@.partial,
            final(self)@.tags == old(self)@.tags,
            final(self)@.temp == old(self)@.temp,
            final(self)@.live == old(self)@.live,
    {
        let i = match self.find_complete(hash) {
            Some(i) => i,
            None => {
                return Err(StoreError::NotFound);
            },
        };
        if at >= self.complete[i].data.len() {
            return Err(StoreError::InvalidArgument);
        }
        let ghost pre = complete_kvs(self.complete@);
        let e = &mut self.complete[i];
        let d = &mut e.data;
        d[at] = value;
        proof {
            assert(complete_kvs(self.complete@) =~= pre.update(
                i as int,
                (hash@, (old(self).complete@[i as int].data@.update(at as int, value), old(
                    self,
                ).complete@[i as int].outboard@)),
            ));
            lemma_kv_update_last(pre, i as int, (
                old(self).complete@[i as int].data@.update(at as int, value),
                old(self).complete@[i as int].outboard@,
            ));
        }
        Ok(())
    }
}

} // verus!

verus! {

/// The last pair carrying a key decides its value.
pub proof fn lemma_kv_last_wins<K, V>(s: Seq<(K, V)>, i: int)
    requires
        0 <= i < s.len(),
        forall|j: int| i < j < s.len() ==> s[j].0 != s[i].0,
    ensures
        kv_map_of(s).contains_key(s[i].0),
        kv_map_of(s)[s[i].0] == s[i].1,
    decreases s.len(),
{
    if i == s.len() - 1 {
    } else {
        assert(s.drop_last()[i] == s[i]);
        lemma_kv_last_wins(s.drop_last(), i);
    }
}

/// What remains of a sequence of pins after releasing one handle: the first
/// pin for the released target goes, the rest stay.
pub open spec fn remove_first_spec(s: Seq<(Seq<u8>, BlobFormat)>, x: (Seq<u8>, BlobFormat)) -> Seq<
    (Seq<u8>, BlobFormat),
>
    decreases s.len(),
{
    if s.len() == 0 {
        s
    } else if s.first() == x {
        s.drop_first()
    } else {
        seq![s.first()] + remove_first_spec(s.drop_first(), x)
    }
}

/// Releasing a pin removes exactly the first element that carries it.
pub proof fn lemma_remove_first_at(s: Seq<(Seq<u8>, BlobFormat)>, x: (Seq<u8>, BlobFormat), j: int)
    requires
        0 <= j < s.len(),
        s[j] == x,
        forall|i: int| 0 <= i < j ==> s[i] != x,
    ensures
        remove_first_spec(s, x) == s.remove(j),
    decreases j,
{
    if j == 0 {
        assert(remove_first_spec(s, x) =~= s.remove(0));
    } else {
        assert(s.drop_first()[j - 1] == s[j]);
        assert forall|i: int| 0 <= i < j - 1 implies s.drop_first()[i] != x by {
            assert(s.drop_first()[i] == s[i + 1]);
        }
        lemma_remove_first_at(s.drop_first(), x, j - 1);
        assert(remove_first_spec(s, x) =~= s.remove(j));
    }
}

/// Releasing a pin that is not held changes nothing.
pub proof fn lemma_remove_first_absent(s: Seq<(Seq<u8>, BlobFormat)>, x: (Seq<u8>, BlobFormat))
    requires
        forall|i: int| 0 <= i < s.len() ==> s[i] != x,
    ensures
        remove_first_spec(s, x) == s,
    decreases s.len(),
{
    if s.len() > 0 {
        assert forall|i: int| 0 <= i < s.drop_first().len() implies s.drop_first()[i] != x by {
            assert(s.drop_first()[i] == s[i + 1]);
        }
        lemma_remove_first_absent(s.drop_first(), x);
        assert(remove_first_spec(s, x) =~= s);
    }
}

impl Store {
    /// Get the partial entry for `hash`, creating an empty one of the given
    /// declared size. Refused with `InvalidArgument` when a partial entry
    /// with another declared size exists, and with `AlreadyExists` when the
    /// blob is already complete.
    pub fn get_or_create_partial(&mut self, hash: BlobHash, size: u64) -> (r: Result<
        (),
        StoreError,
    >)
        ensures
            final(self)@.complete == old(self)@.complete,
            final(self)@.tags == old(self)@.tags,
            final(self)@.temp == old(self)@.temp,
            final(self)@.live == old(self)@.live,
            match r {
                Ok(()) => {
                    &&& !old(self)@.complete.contains_key(hash@)
                    &&& (if old(self)@.partial.contains_key(hash@) {
                        old(self)@.partial[hash@].0 == size && final(self)@.partial == old(
                            self,
                        )@.partial
                    } else {
                        final(self)@.partial == old(self)@.partial.insert(
                            hash@,
                            (
                                size,
                                Map::<(nat, nat), (Seq<u8>, Seq<u8>)>::empty(),
                                Map::<nat, Seq<u8>>::empty(),
                            ),
                        )
                    })
                },
                Err(e) => {
                    &&& final(self)@.partial == old(self)@.partial
                    &&& (e == StoreError::AlreadyExists && old(self)@.complete.contains_key(hash@)
                        || e == StoreError::InvalidArgument && !old(self)@.complete.contains_key(
                        hash@,
                    ) && old(self)@.partial.contains_key(hash@) && old(self)@.partial[hash@].0
                        != size)
                },
            },
    {
        if self.find_complete(&hash).is_some() {
            return Err(StoreError::AlreadyExists);
        }
        match self.find_partial(&hash) {
            Some(i) => {
                if self.partial[i].size == size {
                    Ok(())
                } else {
                    Err(StoreError::InvalidArgument)
                }
            },
            None => {
                let ghost pre = partial_kvs(self.partial@);
                self.partial.push(
                    PartialEntry {
                        hash,
                        size,
                        parents: ParentStore::new(),
                        chunks: ChunkStore::new(),
                    },
                );
                proof {
                    assert(partial_kvs(self.partial@).drop_last() =~= pre);
                }
                Ok(())
            },
        }
    }

    /// True if some tag carries this name.
    fn tags_contain_name(&self, name: &Vec<u8>) -> (r: bool)
        ensures
            r == self@.tags.contains_key(name@),
    {
        let mut i: usize = 0;
        while i < self.tags.len()
            invariant
                i <= self.tags@.len(),
                forall|j: int| 0 <= j < i ==> self.tags@[j].0@ != name@,
            decreases self.tags@.len() - i,
        {
            let eq = self.tags[i].0.name == *name;
            proof {
                if eq {
                    assert(self.tags@[i as int].0.name@ =~= name@);
                }
            }
            if eq {
                proof {
                    lemma_kv_contains(tag_kvs(self.tags@), name@);
                    assert(tag_kvs(self.tags@)[i as int].0 == name@);
                }
                return true;
            }
            i += 1;
        }
        proof {
            lemma_kv_contains(tag_kvs(self.tags@), name@);
            assert forall|j: int| 0 <= j < self.tags@.len() implies tag_kvs(self.tags@)[j].0
                != name@ by {
                assert(tag_kvs(self.tags@)[j].0 == self.tags@[j].0@);
            }
        }
        false
    }

    /// Upsert the tag `name` when a target is given, delete it when none is.
    /// A name that is empty or longer than `MAX_TAG_LEN` is refused with
    /// `InvalidArgument`.
    pub fn set_tag(&mut self, name: Tag, value: Option<HashAndFormat>) -> (r: Result<
        (),
        StoreError,
    >)
        ensures
            final(self)@.complete == old(self)@.complete,
            final(self)@.partial == old(self)@.partial,
            final(self)@.temp == old(self)@.temp,
            final(self)@.live == old(self)@.live,
            match r {
                Ok(()) => 1 <= name@.len() <= MAX_TAG_LEN && (match value {
                    Some(v) => final(self)@.tags == old(self)@.tags.insert(name@, v@),
                    None => final(self)@.tags == old(self)@.tags.remove(name@),
                }),
                Err(e) => e == StoreError::InvalidArgument && !(1 <= name@.len() <= MAX_TAG_LEN)
                    && final(self)@.tags == old(self)@.tags,
            },
    {
        if name.name.len() == 0 || name.name.len() > MAX_TAG_LEN {
            return Err(StoreError::InvalidArgument);
        }
        match value {
            Some(v) => {
                let ghost pre = tag_kvs(self.tags@);
                self.tags.push((name, v));
                proof {
                    assert(tag_kvs(self.tags@).drop_last() =~= pre);
                }
                Ok(())
            },
            None => {
                self.remove_tag_key(&name.name);
                Ok(())
            },
        }
    }

    /// The counter the next fresh tag name is drawn from.
    pub closed spec fn next_tag_id(&self) -> u64 {
        self.tag_counter
    }

    /// Allocate a fresh unique tag name for a target. Fails, with
    /// `AlreadyExists`, only when the name counter is exhausted: every draw
    /// advances the counter, and an error means it reached its very end.
    pub fn create_tag(&mut self, value: HashAndFormat) -> (r: Result<Tag, StoreError>)
        ensures
            final(self)@.complete == old(self)@.complete,
            final(self)@.partial == old(self)@.partial,
            final(self)@.temp == old(self)@.temp,
            final(self)@.live == old(self)@.live,
            match r {
                Ok(t) => !old(self)@.tags.contains_key(t@) && final(self)@.tags == old(
                    self,
                )@.tags.insert(t@, value@) && final(self).next_tag_id() > old(
                    self,
                ).next_tag_id(),
                Err(e) => e == StoreError::AlreadyExists && final(self)@.tags == old(self)@.tags
                    && final(self).next_tag_id() == u64::MAX,
            },
    {
        loop
            invariant
                self.complete == old(self).complete,
                self.partial == old(self).partial,
                self.tags == old(self).tags,
                self.temp == old(self).temp,
                self.live == old(self).live,
                self.tag_counter >= old(self).tag_counter,
            decreases u64::MAX - self.tag_counter,
        {
            if self.tag_counter == u64::MAX {
                return Err(StoreError::AlreadyExists);
            }
            let name = tag_name_bytes(self.tag_counter);
            self.tag_counter = self.tag_counter + 1;
            if !self.tags_contain_name(&name) {
                let tag = Tag { name };
                let ghost pre = tag_kvs(self.tags@);
                self.tags.push((tag.duplicate(), value));
                proof {
                    assert(tag_kvs(self.tags@).drop_last() =~= pre);
                }
                return Ok(tag);
            }
        }
    }

    /// Pin a target with a fresh temporary tag.
    pub fn temp_tag(&mut self, value: HashAndFormat) -> (r: TempTag)
        ensures
            r.target == value,
            final(self)@.temp == old(self)@.temp.push(value@),
            final(self)@.complete == old(self)@.complete,
            final(self)@.partial == old(self)@.partial,
            final(self)@.tags == old(self)@.tags,
            final(self)@.live == old(self)@.live,
    {
        self.temp.push(value);
        proof {
            assert(self.temp@.map_values(|h: HashAndFormat| h@) =~= old(self).temp@.map_values(
                |h: HashAndFormat| h@,
            ).push(value@));
        }
        TempTag { target: value }
    }

    /// Release a temporary tag: one pin for its target goes away.
    pub fn drop_temp_tag(&mut self, tag: TempTag)
        ensures
            final(self)@.temp == remove_first_spec(old(self)@.temp, tag.target@),
            final(self)@.complete == old(self)@.complete,
            final(self)@.partial == old(self)@.partial,
            final(self)@.tags == old(self)@.tags,
            final(self)@.live == old(self)@.live,
    {
        let ghost vs = self.temp@.map_values(|h: HashAndFormat| h@);
        let mut i: usize = 0;
        while i < self.temp.len()
            invariant
                i <= self.temp@.len(),
                vs == self.temp@.map_values(|h: HashAndFormat| h@),
                forall|j: int| 0 <= j < i ==> vs[j] != tag.target@,
                self.complete == old(self).complete,
                self.partial == old(self).partial,
                self.tags == old(self).tags,
                self.live == old(self).live,
                self.temp == old(self).temp,
                self.tag_counter == old(self).tag_counter,
            decreases self.temp@.len() - i,
        {
            if self.temp[i] == tag.target {
                proof {
                    assert(vs[i as int] == self.temp@[i as int]@);
                }
                self.temp.remove(i);
                proof {
                    assert(self.temp@.map_values(|h: HashAndFormat| h@) =~= vs.remove(i as int));
                    lemma_remove_first_at(vs, tag.target@, i as int);
                }
                return ;
            }
            i += 1;
        }
        proof {
            lemma_remove_first_absent(vs, tag.target@);
        }
    }

    /// The currently pinned targets, each once.
    pub fn temp_tags(&self) -> (r: Vec<HashAndFormat>)
        ensures
            vset_of(haf_views(r@)) == vset_of(self@.temp),
            forall|j1: int, j2: int| 0 <= j1 < j2 < r@.len() ==> r@[j1]@ != r@[j2]@,
    {
        let mut out: Vec<HashAndFormat> = Vec::new();
        let mut i: usize = 0;
        while i < self.temp.len()
            invariant
                i <= self.temp@.len(),
                vset_of(haf_views(out@)) == vset_of(haf_views(self.temp@.subrange(0, i as int))),
                forall|j1: int, j2: int| 0 <= j1 < j2 < out@.len() ==> out@[j1]@ != out@[j2]@,
            decreases self.temp@.len() - i,
        {
            let ghost pre = out@;
            let contained = hafs_contain(&out, &self.temp[i]);
            proof {
                lemma_vset_contains(haf_views(pre), self.temp@[i as int]@);
            }
            if !contained {
                out.push(self.temp[i]);
                proof {
                    assert(haf_views(out@).drop_last() =~= haf_views(pre));
                    assert(haf_views(out@).last() == self.temp@[i as int]@);
                }
            } else {
                proof {
                    let w = choose|j: int|
                        0 <= j < pre.len() && pre[j]@ == self.temp@[i as int]@;
                    assert(haf_views(pre)[w] == self.temp@[i as int]@);
                    assert(vset_of(haf_views(pre)).contains(self.temp@[i as int]@));
                }
            }
            proof {
                assert(haf_views(self.temp@.subrange(0, i + 1)).drop_last() =~= haf_views(
                    self.temp@.subrange(0, i as int),
                ));
                assert(haf_views(self.temp@.subrange(0, i + 1)).last() == self.temp@[i as int]@);
                assert(vset_of(haf_views(out@)) =~= vset_of(
                    haf_views(self.temp@.subrange(0, i + 1)),
                ));
            }
            i += 1;
        }
        proof {
            assert(self.temp@.subrange(0, self.temp@.len() as int) =~= self.temp@);
            assert(haf_views(self.temp@) == self@.temp);
        }
        out
    }

    /// Empty the live set, before a new mark round.
    pub fn clear_live(&mut self)
        ensures
            final(self)@.live == Set::<Seq<u8>>::empty(),
            final(self)@.complete == old(self)@.complete,
            final(self)@.partial == old(self)@.partial,
            final(self)@.tags == old(self)@.tags,
            final(self)@.temp == old(self)@.temp,
    {
        self.live.clear();
    }

    /// Union the given hashes into the live set.
    pub fn add_live(&mut self, hashes: &Vec<BlobHash>)
        ensures
            final(self)@.live == old(self)@.live.union(lset_of(hashes@)),
            final(self)@.complete == old(self)@.complete,
            final(self)@.partial == old(self)@.partial,
            final(self)@.tags == old(self)@.tags,
            final(self)@.temp == old(self)@.temp,
    {
        let mut i: usize = 0;
        while i < hashes.len()
            invariant
                i <= hashes@.len(),
                self.live@ == old(self).live@ + hashes@.subrange(0, i as int),
                lset_of(self.live@) == lset_of(old(self).live@).union(
                    lset_of(hashes@.subrange(0, i as int)),
                ),
                self.complete == old(self).complete,
                self.partial == old(self).partial,
                self.tags == old(self).tags,
                self.temp == old(self).temp,
                self.tag_counter == old(self).tag_counter,
            decreases hashes@.len() - i,
        {
            let ghost prev = self.live@;
            self.live.push(hashes[i]);
            proof {
                assert(self.live@.drop_last() =~= prev);
                assert(self.live@ =~= old(self).live@ + hashes@.subrange(0, i + 1));
                assert(hashes@.subrange(0, i + 1).drop_last() =~= hashes@.subrange(0, i as int));
                assert(lset_of(self.live@) =~= lset_of(old(self).live@).union(
                    lset_of(hashes@.subrange(0, i + 1)),
                ));
            }
            i += 1;
        }
        proof {
            assert(hashes@.subrange(0, hashes@.len() as int) =~= hashes@);
        }
    }

    /// True if `hash` is in the live set.
    pub fn is_live(&self, hash: &BlobHash) -> (r: bool)
        ensures
            r == self@.live.contains(hash@),
    {
        let mut i: usize = 0;
        while i < self.live.len()
            invariant
                i <= self.live@.len(),
                forall|j: int| 0 <= j < i ==> self.live@[j]@ != hash@,
            decreases self.live@.len() - i,
        {
            if self.live[i] == *hash {
                proof {
                    lemma_lset_contains(self.live@, hash@);
                }
                return true;
            }
            i += 1;
        }
        proof {
            lemma_lset_contains(self.live@, hash@);
        }
        false
    }

    /// The hashes of all complete blobs, each once.
    pub fn blobs(&self) -> (r: Vec<BlobHash>)
        ensures
            lset_of(r@) == self@.complete.dom(),
            forall|j1: int, j2: int| 0 <= j1 < j2 < r@.len() ==> r@[j1]@ != r@[j2]@,
    {
        let ghost kvs = complete_kvs(self.complete@);
        let mut out: Vec<BlobHash> = Vec::new();
        let mut i: usize = 0;
        while i < self.complete.len()
            invariant
                i <= self.complete@.len(),
                kvs == complete_kvs(self.complete@),
                lset_of(out@) == keys_of(kvs.subrange(0, i as int)),
                forall|j1: int, j2: int| 0 <= j1 < j2 < out@.len() ==> out@[j1]@ != out@[j2]@,
            decreases self.complete@.len() - i,
        {
            let ghost pre = out@;
            let contained = hashes_contain(&out, &self.complete[i].hash);
            proof {
                lemma_lset_contains(pre, self.complete@[i as int].hash@);
            }
            if !contained {
                out.push(self.complete[i].hash);
                proof {
                    assert(out@.drop_last() =~= pre);
                }
            }
            proof {
                assert(kvs.subrange(0, i + 1).drop_last() =~= kvs.subrange(0, i as int));
                assert(kvs.subrange(0, i + 1).last().0 == self.complete@[i as int].hash@);
                assert(lset_of(out@) =~= keys_of(kvs.subrange(0, i + 1)));
            }
            i += 1;
        }
        proof {
            assert(kvs.subrange(0, kvs.len() as int) =~= kvs);
            lemma_keys_dom(kvs);
        }
        out
    }

    /// The hashes of all partial blobs, each once.
    pub fn partial_blobs(&self) -> (r: Vec<BlobHash>)
        ensures
            lset_of(r@) == self@.partial.dom(),
            forall|j1: int, j2: int| 0 <= j1 < j2 < r@.len() ==> r@[j1]@ != r@[j2]@,
    {
        let ghost kvs = partial_kvs(self.partial@);
        let mut out: Vec<BlobHash> = Vec::new();
        let mut i: usize = 0;
        while i < self.partial.len()
            invariant
                i <= self.partial@.len(),
                kvs == partial_kvs(self.partial@),
                lset_of(out@) == keys_of(kvs.subrange(0, i as int)),
                forall|j1: int, j2: int| 0 <= j1 < j2 < out@.len() ==> out@[j1]@ != out@[j2]@,
            decreases self.partial@.len() - i,
        {
            let ghost pre = out@;
            let contained = hashes_contain(&out, &self.partial[i].hash);
            proof {
                lemma_lset_contains(pre, self.partial@[i as int].hash@);
            }
            if !contained {
                out.push(self.partial[i].hash);
                proof {
                    assert(out@.drop_last() =~= pre);
                }
            }
            proof {
                assert(kvs.subrange(0, i + 1).drop_last() =~= kvs.subrange(0, i as int));
                assert(kvs.subrange(0, i + 1).last().0 == self.partial@[i as int].hash@);
                assert(lset_of(out@) =~= keys_of(kvs.subrange(0, i + 1)));
            }
            i += 1;
        }
        proof {
            assert(kvs.subrange(0, kvs.len() as int) =~= kvs);
            lemma_keys_dom(kvs);
        }
        out
    }

    /// All tags with their targets, each name once, carrying the value the
    /// store holds for it.
    pub fn tags(&self) -> (r: Vec<(Tag, HashAndFormat)>)
        ensures
            forall|j: int|
                0 <= j < r@.len() ==> self@.tags.contains_key(#[trigger] r@[j].0@)
                    && self@.tags[r@[j].0@] == r@[j].1@,
            keys_of(tag_kvs(r@)) == self@.tags.dom(),
            forall|j1: int, j2: int| 0 <= j1 < j2 < r@.len() ==> r@[j1].0@ != r@[j2].0@,
    {
        let ghost kvs = tag_kvs(self.tags@);
        let mut out: Vec<(Tag, HashAndFormat)> = Vec::new();
        let mut i: usize = self.tags.len();
        proof {
            assert(keys_of(tag_kvs(out@)) =~= Set::<Seq<u8>>::empty());
        }
        while i > 0
            invariant
                i <= self.tags@.len(),
                kvs == tag_kvs(self.tags@),
                forall|j: int|
                    0 <= j < out@.len() ==> self@.tags.contains_key(#[trigger] out@[j].0@)
                        && self@.tags[out@[j].0@] == out@[j].1@,
                keys_of(tag_kvs(out@)) == keys_of(kvs.subrange(i as int, kvs.len() as int)),
                forall|j1: int, j2: int| 0 <= j1 < j2 < out@.len() ==> out@[j1].0@ != out@[j2].0@,
            decreases i,
        {
            i = i - 1;
            let ghost pre = out@;
            let ghost suffix = kvs.subrange(i + 1, kvs.len() as int);
            let contained = pairs_contain_name(&out, &self.tags[i].0.name);
            proof {
                assert(self.tags@[i as int].0.name@ == kvs[i as int].0);
                lemma_keys_contains(tag_kvs(pre), kvs[i as int].0);
            }
            if !contained {
                proof {
                    lemma_keys_contains(suffix, kvs[i as int].0);
                    assert forall|j: int|
                        i < j < kvs.len() implies kvs[j].0 != kvs[i as int].0 by {
                        assert(suffix[j - i - 1] == kvs[j]);
                    }
                    lemma_kv_last_wins(kvs, i as int);
                    assert(kvs[i as int].1 == self.tags@[i as int].1@);
                }
                out.push((self.tags[i].0.duplicate(), self.tags[i].1));
                proof {
                    assert(tag_kvs(out@).drop_last() =~= tag_kvs(pre));
                    assert(tag_kvs(out@).last().0 == kvs[i as int].0);
                    assert(out@[out@.len() - 1].0@ == kvs[i as int].0);
                    assert(out@[out@.len() - 1].1@ == self.tags@[i as int].1@);
                }
            }
            proof {
                if contained {
                    let w = choose|j: int|
                        0 <= j < pre.len() && pre[j].0@ == self.tags@[i as int].0.name@;
                    assert(tag_kvs(pre)[w].0 == kvs[i as int].0);
                    assert(keys_of(tag_kvs(pre)).contains(kvs[i as int].0));
                }
                let cur = kvs.subrange(i as int, kvs.len() as int);
                assert(cur.drop_first() =~= suffix);
                assert(cur.first() == kvs[i as int]);
                lemma_keys_first(cur);
                assert(keys_of(tag_kvs(out@)) =~= keys_of(cur));
            }
        }
        proof {
            assert(kvs.subrange(0, kvs.len() as int) =~= kvs);
            lemma_keys_dom(kvs);
        }
        out
    }

    /// Physically delete the given hashes, complete and partial alike.
    pub fn delete(&mut self, hashes: &Vec<BlobHash>) -> (r: Result<(), StoreError>)
        ensures
            r is Ok,
            final(self)@.complete == old(self)@.complete.remove_keys(lset_of(hashes@)),
            final(self)@.partial == old(self)@.partial.remove_keys(lset_of(hashes@)),
            final(self)@.tags == old(self)@.tags,
            final(self)@.temp == old(self)@.temp,
            final(self)@.live == old(self)@.live,
    {
        let mut i: usize = 0;
        while i < hashes.len()
            invariant
                i <= hashes@.len(),
                self@.complete == old(self)@.complete.remove_keys(
                    lset_of(hashes@.subrange(0, i as int)),
                ),
                self@.partial == old(self)@.partial.remove_keys(
                    lset_of(hashes@.subrange(0, i as int)),
                ),
                self@.tags == old(self)@.tags,
                self@.temp == old(self)@.temp,
                self@.live == old(self)@.live,
            decreases hashes@.len() - i,
        {
            self.remove_complete_key(&hashes[i]);
            self.remove_partial_key(&hashes[i]);
            proof {
                assert(hashes@.subrange(0, i + 1).drop_last() =~= hashes@.subrange(0, i as int));
                assert(lset_of(hashes@.subrange(0, i + 1)) =~= lset_of(
                    hashes@.subrange(0, i as int),
                ).insert(hashes@[i as int]@));
                assert(self@.complete =~= old(self)@.complete.remove_keys(
                    lset_of(hashes@.subrange(0, i + 1)),
                ));
                assert(self@.partial =~= old(self)@.partial.remove_keys(
                    lset_of(hashes@.subrange(0, i + 1)),
                ));
            }
            i += 1;
        }
        proof {
            assert(hashes@.subrange(0, hashes@.len() as int) =~= hashes@);
        }
        Ok(())
    }
}

/// True if some hash in the list views as `h`.
pub fn hashes_contain(v: &Vec<BlobHash>, h: &BlobHash) -> (r: bool)
    ensures
        r == exists|j: int| 0 <= j < v@.len() && v@[j]@ == h@,
{
    let mut i: usize = 0;
    while i < v.len()
        invariant
            i <= v@.len(),
            forall|j: int| 0 <= j < i ==> v@[j]@ != h@,
        decreases v@.len() - i,
    {
        if v[i] == *h {
            return true;
        }
        i += 1;
    }
    false
}

/// True if some pair in the list views as `x`.
fn hafs_contain(v: &Vec<HashAndFormat>, x: &HashAndFormat) -> (r: bool)
    ensures
        r == exists|j: int| 0 <= j < v@.len() && v@[j]@ == x@,
{
    let mut i: usize = 0;
    while i < v.len()
        invariant
            i <= v@.len(),
            forall|j: int| 0 <= j < i ==> v@[j]@ != x@,
        decreases v@.len() - i,
    {
        if v[i] == *x {
            return true;
        }
        i += 1;
    }
    false
}

/// True if some tag in the list carries this name.
fn pairs_contain_name(v: &Vec<(Tag, HashAndFormat)>, name: &Vec<u8>) -> (r: bool)
    ensures
        r == exists|j: int| 0 <= j < v@.len() && v@[j].0@ == name@,
{
    let mut i: usize = 0;
    while i < v.len()
        invariant
            i <= v@.len(),
            forall|j: int| 0 <= j < i ==> v@[j].0@ != name@,
        decreases v@.len() - i,
    {
        let eq = v[i].0.name == *name;
        proof {
            if eq {
                assert(v@[i as int].0.name@ =~= name@);
            }
        }
        if eq {
            return true;
        }
        i += 1;
    }
    false
}

/// The decimal digits of `n`, as ASCII bytes.
fn tag_name_bytes(n: u64) -> (r: Vec<u8>)
    ensures
        r@.len() >= 1,
{
    let mut digits: Vec<u8> = Vec::new();
    let mut m = n;
    loop
        invariant
            true,
        decreases m,
    {
        digits.push(48 + (m % 10) as u8);
        m = m / 10;
        if m == 0 {
            break ;
        }
    }
    let mut out: Vec<u8> = Vec::new();
    out.push(116);
    out.push(97);
    out.push(103);
    out.push(45);
    let mut i: usize = digits.len();
    while i > 0
        invariant
            i <= digits@.len(),
            out@.len() >= 4,
        decreases i,
    {
        i = i - 1;
        out.push(digits[i]);
    }
    out
}

} // verus!

verus! {

impl Store {
    /// Write one batch of content items to the partial blob `hash`.
    ///
    /// The batch is accepted exactly when the blob exists as a partial entry,
    /// the declared size matches the entry's, every leaf is well-formed for
    /// that size, and every leaf's Merkle path, drawn from the parents stored
    /// so far plus those in this batch, hashes back to the blob's root hash.
    /// A rejected batch leaves the store unchanged; an accepted one persists
    /// the batch's parents and leaves.
    pub fn write_batch(&mut self, hash: &BlobHash, size: u64, batch: &Vec<BaoContentItem>) -> (r:
        Result<(), StoreError>)
        ensures
            final(self)@.complete == old(self)@.complete,
            final(self)@.tags == old(self)@.tags,
            final(self)@.temp == old(self)@.temp,
            final(self)@.live == old(self)@.live,
            match r {
                Ok(()) => {
                    &&& old(self)@.partial.contains_key(hash@)
                    &&& old(self)@.partial[hash@].0 == size
                    &&& batch_leaves_ok(size, batch@)
                    &&& batch_chains(
                        merged_pmap(old(self)@.partial[hash@].1, batch@),
                        hash@,
                        size,
                        batch@,
                    )
                    &&& final(self)@.partial == old(self)@.partial.insert(
                        hash@,
                        (
                            size,
                            merged_pmap(old(self)@.partial[hash@].1, batch@),
                            apply_leaves(old(self)@.partial[hash@].2, batch@),
                        ),
                    )
                },
                Err(e) => {
                    &&& final(self)@.partial == old(self)@.partial
                    &&& (e == StoreError::NotFound && !old(self)@.partial.contains_key(hash@) || e
                        == StoreError::InvalidArgument && old(self)@.partial.contains_key(hash@)
                        && (old(self)@.partial[hash@].0 != size || !batch_leaves_ok(size, batch@))
                        || e == StoreError::InvalidData && old(self)@.partial.contains_key(hash@)
                        && old(self)@.partial[hash@].0 == size && batch_leaves_ok(size, batch@)
                        && !batch_chains(
                        merged_pmap(old(self)@.partial[hash@].1, batch@),
                        hash@,
                        size,
                        batch@,
                    ))
                },
            },
    {
        let idx = match self.find_partial(hash) {
            Some(i) => i,
            None => {
                return Err(StoreError::NotFound);
            },
        };
        // the shared acceptance check: size, leaf shapes, Merkle paths
        let entry = &self.partial[idx];
        match check_batch(&entry.parents, &entry.hash, entry.size, size, batch) {
            Ok(()) => {},
            Err(e) => {
                return Err(e);
            },
        }
        // commit: persist the batch's parents and leaves
        let ghost pre_kvs = partial_kvs(self.partial@);
        let ghost old_parents = self.partial@[idx as int].parents@;
        let ghost old_chunks = self.partial@[idx as int].chunks@;
        let e = &mut self.partial[idx];
        e.parents.merge_batch(batch);
        let mut j: usize = 0;
        while j < batch.len()
            invariant
                j <= batch@.len(),
                e.chunks@ == apply_leaves(old_chunks, batch@.subrange(0, j as int)),
                e.hash == old(self).partial@[idx as int].hash,
                e.size == old(self).partial@[idx as int].size,
                e.parents@ == merged_pmap(old_parents, batch@),
            decreases batch@.len() - j,
        {
            proof {
                assert(batch@.subrange(0, j + 1).drop_last() =~= batch@.subrange(0, j as int));
                assert(batch@.subrange(0, j + 1).last() == batch@[j as int]);
            }
            match &batch[j] {
                BaoContentItem::Leaf { offset, data } => {
                    let chunk = offset / CHUNK_SIZE;
                    e.chunks.insert(chunk, clone_bytes(data));
                },
                BaoContentItem::Parent { .. } => {
                },
            }
            j += 1;
        }
        proof {
            assert(batch@.subrange(0, batch@.len() as int) =~= batch@);
            assert(partial_kvs(self.partial@) =~= pre_kvs.update(
                idx as int,
                (hash@, (size, merged_pmap(old_parents, batch@), apply_leaves(old_chunks, batch@))),
            ));
            lemma_kv_update_last(
                pre_kvs,
                idx as int,
                (size, merged_pmap(old_parents, batch@), apply_leaves(old_chunks, batch@)),
            );
        }
        Ok(())
    }
}

} // verus!

verus! {

/// The first `k` chunks of a partial blob, concatenated.
pub open spec fn assemble_upto(chunks: Map<nat, Seq<u8>>, k: nat) -> Seq<u8>
    decreases k,
{
    if k == 0 {
        Seq::empty()
    } else {
        assemble_upto(chunks, (k - 1) as nat) + chunks[(k - 1) as nat]
    }
}

/// The whole data of a partial blob of declared size `size`: its chunks in
/// order.
pub open spec fn assemble(chunks: Map<nat, Seq<u8>>, size: u64) -> Seq<u8> {
    assemble_upto(chunks, num_chunks(size as nat))
}

/// Every chunk of the tree over `size` is present.
pub open spec fn covered(chunks: Map<nat, Seq<u8>>, size: u64) -> bool {
    forall|i: nat| i < num_chunks(size as nat) ==> #[trigger] chunks.contains_key(i)
}

/// Every present chunk has exactly the length its position dictates.
pub open spec fn chunks_sized(chunks: Map<nat, Seq<u8>>, size: u64) -> bool {
    forall|i: nat|
        i < num_chunks(size as nat) && #[trigger] chunks.contains_key(i) ==> chunks[i].len()
            == chunk_len(size as nat, i)
}

/// A covered, well-sized partial blob assembles to exactly `size` bytes.
pub proof fn lemma_assemble_len(chunks: Map<nat, Seq<u8>>, size: u64, k: nat)
    requires
        covered(chunks, size),
        chunks_sized(chunks, size),
        k <= num_chunks(size as nat),
    ensures
        assemble_upto(chunks, k).len() == if k < num_chunks(size as nat) {
            1024 * k
        } else {
            size as nat
        },
    decreases k,
{
    let nc = num_chunks(size as nat);
    if size > 0 {
        vstd::arithmetic::div_mod::lemma_fundamental_div_mod((size - 1) as int, 1024);
    }
    if k > 0 {
        lemma_assemble_len(chunks, size, (k - 1) as nat);
        assert(chunks.contains_key((k - 1) as nat));
        if k < nc {
            assert(k <= (size - 1) as nat / 1024);
            assert(k * 1024 <= ((size - 1) as nat / 1024) * 1024);
        }
    }
}

impl Store {
    /// Promote the partial blob `hash` to a complete entry.
    ///
    /// Succeeds exactly when a partial entry exists, its chunks cover the
    /// whole declared size, every chunk has the length its position dictates,
    /// and the assembled bytes hash to `hash`. On success the data moves to
    /// the complete section in one step, with a freshly computed outboard;
    /// lookups then see the complete entry for the same hash.
    pub fn insert_complete(&mut self, hash: &BlobHash) -> (r: Result<(), StoreError>)
        ensures
            final(self)@.tags == old(self)@.tags,
            final(self)@.temp == old(self)@.temp,
            final(self)@.live == old(self)@.live,
            match r {
                Ok(()) => {
                    &&& old(self)@.partial.contains_key(hash@)
                    &&& covered(old(self)@.partial[hash@].2, old(self)@.partial[hash@].0)
                    &&& chunks_sized(old(self)@.partial[hash@].2, old(self)@.partial[hash@].0)
                    &&& blob_hash(
                        assemble(old(self)@.partial[hash@].2, old(self)@.partial[hash@].0),
                    ) == hash@
                    &&& final(self)@.partial == old(self)@.partial.remove(hash@)
                    &&& final(self)@.complete == old(self)@.complete.insert(
                        hash@,
                        (
                            assemble(old(self)@.partial[hash@].2, old(self)@.partial[hash@].0),
                            outboard_bytes(
                                assemble(old(self)@.partial[hash@].2, old(self)@.partial[hash@].0),
                            ),
                        ),
                    )
                },
                Err(e) => {
                    &&& final(self)@ == old(self)@
                    &&& (e == StoreError::NotFound && !old(self)@.partial.contains_key(hash@) || e
                        == StoreError::InvalidArgument && old(self)@.partial.contains_key(hash@)
                        && !covered(old(self)@.partial[hash@].2, old(self)@.partial[hash@].0) || e
                        == StoreError::Internal && old(self)@.partial.contains_key(hash@)
                        && covered(old(self)@.partial[hash@].2, old(self)@.partial[hash@].0)
                        && !chunks_sized(old(self)@.partial[hash@].2, old(self)@.partial[hash@].0)
                        || e == StoreError::InvalidData && old(self)@.partial.contains_key(hash@)
                        && covered(old(self)@.partial[hash@].2, old(self)@.partial[hash@].0)
                        && chunks_sized(old(self)@.partial[hash@].2, old(self)@.partial[hash@].0)
                        && blob_hash(
                        assemble(old(self)@.partial[hash@].2, old(self)@.partial[hash@].0),
                    ) != hash@)
                },
            },
    {
        let idx = match self.find_partial(hash) {
            Some(i) => i,
            None => {
                return Err(StoreError::NotFound);
            },
        };
        let size = self.partial[idx].size;
        let nc = num_chunks_of(size);
        // coverage: every chunk of the tree must be present
        let mut c: u64 = 0;
        while c < nc
            invariant
                c <= nc,
                self == old(self),
                old(self)@.partial.contains_key(hash@),
                idx < self.partial@.len(),
                old(self)@.partial[hash@] == (
                    self.partial@[idx as int].size,
                    self.partial@[idx as int].parents@,
                    self.partial@[idx as int].chunks@,
                ),
                size == self.partial@[idx as int].size,
                nc == num_chunks(size as nat),
                forall|i: nat| i < c ==> #[trigger] self.partial@[idx as int].chunks@.contains_key(i),
            decreases nc - c,
        {
            if !self.partial[idx].chunks.contains(c) {
                return Err(StoreError::InvalidArgument);
            }
            c += 1;
        }
        // assembly: concatenate the chunks, checking each length
        let ghost chunks = self.partial@[idx as int].chunks@;
        let mut data: Vec<u8> = Vec::new();
        let mut c: u64 = 0;
        while c < nc
            invariant
                c <= nc,
                self == old(self),
                old(self)@.partial.contains_key(hash@),
                idx < self.partial@.len(),
                old(self)@.partial[hash@] == (
                    self.partial@[idx as int].size,
                    self.partial@[idx as int].parents@,
                    self.partial@[idx as int].chunks@,
                ),
                chunks == self.partial@[idx as int].chunks@,
                size == self.partial@[idx as int].size,
                nc == num_chunks(size as nat),
                covered(chunks, size),
                data@ == assemble_upto(chunks, c as nat),
                forall|i: nat|
                    i < c && #[trigger] chunks.contains_key(i) ==> chunks[i].len() == chunk_len(
                        size as nat,
                        i,
                    ),
            decreases nc - c,
        {
            let bytes = match self.partial[idx].chunks.get(c) {
                Some(b) => b,
                None => {
                    return Err(StoreError::Internal);
                },
            };
            let want = chunk_len_of(size, c);
            if bytes.len() as u64 != want {
                return Err(StoreError::Internal);
            }
            append_bytes(&mut data, bytes);
            c += 1;
        }
        proof {
            lemma_assemble_len(chunks, size, num_chunks(size as nat));
        }
        // the assembled bytes must hash back to the root
        let (outboard, root) = compute_outboard(&data);
        if !(root == *hash) {
            return Err(StoreError::InvalidData);
        }
        // promotion: the partial entry goes, the complete entry appears
        self.remove_partial_key(hash);
        let ghost pre = complete_kvs(self.complete@);
        self.complete.push(CompleteEntry { hash: *hash, data, outboard });
        proof {
            assert(complete_kvs(self.complete@).drop_last() =~= pre);
        }
        Ok(())
    }
}

/// Append a copy of `src` to `out`.
pub(crate) fn append_bytes(out: &mut Vec<u8>, src: &Vec<u8>)
    ensures
        final(out)@ == old(out)@ + src@,
{
    let mut i: usize = 0;
    while i < src.len()
        invariant
            i <= src@.len(),
            out@ == old(out)@ + src@.subrange(0, i as int),
        decreases src@.len() - i,
    {
        out.push(src[i]);
        proof {
            assert(out@ =~= old(out)@ + src@.subrange(0, i + 1));
        }
        i += 1;
    }
    proof {
        assert(old(out)@ + src@.subrange(0, src@.len() as int) =~= old(out)@ + src@);
    }
}

} // verus!

verus! {

/// The key set of a stored chunk list.
pub open spec fn ckeys_of(s: Seq<(u64, Seq<u8>)>) -> Set<nat>
    decreases s.len(),
{
    if s.len() == 0 {
        Set::empty()
    } else {
        ckeys_of(s.drop_last()).insert(s.last().0 as nat)
    }
}

/// The chunk map's domain is the key set of the list that holds it.
pub proof fn lemma_ckeys_dom(s: Seq<(u64, Seq<u8>)>)
    ensures
        chunk_map_of(s).dom() == ckeys_of(s),
    decreases s.len(),
{
    if s.len() == 0 {
        assert(chunk_map_of(s).dom() =~= ckeys_of(s));
    } else {
        lemma_ckeys_dom(s.drop_last());
        assert(chunk_map_of(s).dom() =~= ckeys_of(s));
    }
}

/// The set of chunk indices named by a list of indices.
pub open spec fn cset_of(s: Seq<u64>) -> Set<nat>
    decreases s.len(),
{
    if s.len() == 0 {
        Set::empty()
    } else {
        cset_of(s.drop_last()).insert(s.last() as nat)
    }
}

/// An index is in the set exactly when the list names it.
pub proof fn lemma_cset_contains(s: Seq<u64>, c: nat)
    ensures
        cset_of(s).contains(c) <==> exists|i: int| 0 <= i < s.len() && s[i] as nat == c,
    decreases s.len(),
{
    if s.len() > 0 {
        lemma_cset_contains(s.drop_last(), c);
        if s.last() as nat == c {
            assert(s[s.len() - 1] as nat == c);
        } else if cset_of(s).contains(c) {
            let i = choose|i: int| 0 <= i < s.drop_last().len() && s.drop_last()[i] as nat == c;
            assert(s[i] as nat == c);
        } else {
            assert forall|i: int| 0 <= i < s.len() implies s[i] as nat != c by {
                if i < s.len() - 1 {
                    assert(s.drop_last()[i] == s[i]);
                }
            }
        }
    }
}

/// True if the list names chunk `x`.
fn chunk_list_contains(v: &Vec<u64>, x: u64) -> (r: bool)
    ensures
        r == exists|j: int| 0 <= j < v@.len() && v@[j] == x,
{
    let mut i: usize = 0;
    while i < v.len()
        invariant
            i <= v@.len(),
            forall|j: int| 0 <= j < i ==> v@[j] != x,
        decreases v@.len() - i,
    {
        if v[i] == x {
            return true;
        }
        i += 1;
    }
    false
}

impl ChunkStore {
    /// The set of chunk indices stored, each once: the chunk-range set in
    /// its sparsest form, one index per verified chunk.
    pub fn available_ranges(&self) -> (r: Vec<u64>)
        ensures
            cset_of(r@) == self@.dom(),
            forall|j1: int, j2: int| 0 <= j1 < j2 < r@.len() ==> r@[j1] != r@[j2],
    {
        let ghost vs = self.entries@.map_values(|e: (u64, Vec<u8>)| (e.0, e.1@));
        let mut out: Vec<u64> = Vec::new();
        let mut i: usize = 0;
        proof {
            assert(cset_of(out@) =~= ckeys_of(vs.subrange(0, 0)));
        }
        while i < self.entries.len()
            invariant
                i <= self.entries@.len(),
                vs == self.entries@.map_values(|e: (u64, Vec<u8>)| (e.0, e.1@)),
                cset_of(out@) == ckeys_of(vs.subrange(0, i as int)),
                forall|j1: int, j2: int| 0 <= j1 < j2 < out@.len() ==> out@[j1] != out@[j2],
            decreases self.entries@.len() - i,
        {
            let ghost pre = out@;
            let key = self.entries[i].0;
            let contained = chunk_list_contains(&out, key);
            proof {
                lemma_cset_contains(pre, key as nat);
            }
            if !contained {
                out.push(key);
                proof {
                    assert(out@.drop_last() =~= pre);
                }
            }
            proof {
                assert(vs.subrange(0, i + 1).drop_last() =~= vs.subrange(0, i as int));
                assert(vs.subrange(0, i + 1).last().0 == key);
                assert(cset_of(out@) =~= ckeys_of(vs.subrange(0, i + 1)));
            }
            i += 1;
        }
        proof {
            assert(vs.subrange(0, vs.len() as int) =~= vs);
            lemma_ckeys_dom(vs);
        }
        out
    }
}

impl PartialEntry {
    /// The chunk-range set currently persisted and verified, as the set of
    /// verified chunk indices, each once. A best-effort snapshot: later
    /// batches may enlarge it.
    pub fn available_ranges(&self) -> (r: Vec<u64>)
        ensures
            cset_of(r@) == self.chunks@.dom(),
            forall|j1: int, j2: int| 0 <= j1 < j2 < r@.len() ==> r@[j1] != r@[j2],
    {
        self.chunks.available_ranges()
    }
}

} // verus!
