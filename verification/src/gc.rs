//! The garbage collector: a mark phase that computes the live set from the
//! tag and pin roots, and a sweep phase that deletes what is not live.

use vstd::prelude::*;

use crate::error::StoreError;
use crate::events::{GcMarkEvent, GcSweepEvent};
use crate::hash::{BlobFormat, BlobHash, HashAndFormat};
use crate::hashseq::{parse_hash_seq, parse_hash_seq_spec, seq_views};
use vstd::string::StringExecFns;

use crate::store::{Store, StoreModel, lset_of, lemma_lset_contains, lemma_keys_contains,
    lemma_vset_contains, haf_views, vset_of, tag_kvs, keys_of, hashes_contain};

verus! {

/// A target is a garbage-collection root when a tag names it, a temporary
/// pin holds it, or the caller passed it as an extra root.
pub open spec fn is_gc_root(
    m: StoreModel,
    extra: Seq<Result<HashAndFormat, StoreError>>,
    t: (Seq<u8>, BlobFormat),
) -> bool {
    ||| exists|n: Seq<u8>| #[trigger] m.tags.contains_key(n) && m.tags[n] == t
    ||| m.temp.contains(t)
    ||| exists|j: int|
        0 <= j < extra.len() && (#[trigger] extra[j] matches Ok(h) && h@ == t)
}

/// The hashes a root set pins directly and through one level of hash
/// sequences, as the mark phase promises them live: every root's own hash,
/// and every child of a root in hash-sequence format whose blob is complete
/// and decodes.
pub open spec fn mark_reaches(
    m: StoreModel,
    extra: Seq<Result<HashAndFormat, StoreError>>,
    h: Seq<u8>,
) -> bool {
    ||| exists|t: (Seq<u8>, BlobFormat)| #[trigger] is_gc_root(m, extra, t) && t.0 == h
    ||| exists|t: (Seq<u8>, BlobFormat), k: int|
        #![trigger is_gc_root(m, extra, t), parse_hash_seq_spec(m.complete[t.0].0)->Some_0[k]]
        {
            &&& is_gc_root(m, extra, t)
            &&& t.1 == BlobFormat::HashSeq
            &&& m.complete.contains_key(t.0)
            &&& parse_hash_seq_spec(m.complete[t.0].0) is Some
            &&& 0 <= k < parse_hash_seq_spec(m.complete[t.0].0)->Some_0.len()
            &&& parse_hash_seq_spec(m.complete[t.0].0)->Some_0[k] == h
        }
}

/// True when some event of the mark phase is a warning.
pub open spec fn has_warning(events: Seq<GcMarkEvent>) -> bool
    decreases events.len(),
{
    if events.len() == 0 {
        false
    } else {
        (events.last() is CustomWarning) || has_warning(events.drop_last())
    }
}

/// A hash-sequence root whose children the mark phase cannot reach: its blob
/// is absent from the complete section, or its bytes do not decode.
pub open spec fn bad_hash_seq_root(
    m: StoreModel,
    extra: Seq<Result<HashAndFormat, StoreError>>,
) -> bool {
    exists|t: (Seq<u8>, BlobFormat)|
        #[trigger] is_gc_root(m, extra, t) && t.1 == BlobFormat::HashSeq && (
        !m.complete.contains_key(t.0) || parse_hash_seq_spec(m.complete[t.0].0) is None)
}

impl Store {
    /// The mark phase: collect the roots from tags, temporary pins and the
    /// given extra roots, traverse complete hash-sequence roots one level
    /// deep, and union everything reached into the live set: afterwards the
    /// live set is exactly the old one plus what the roots reach.
    ///
    /// The first `Err` among the extra roots aborts the phase with a
    /// terminal `Error` event carrying that error, and leaves the live set
    /// unchanged. A missing, partial or
    /// undecodable hash-sequence root only earns a warning event: its own
    /// hash is still marked, its children cannot be. When every root is in
    /// order no `Error` is emitted and the events end with a summary.
    pub fn gc_mark(&mut self, extra_roots: &Vec<Result<HashAndFormat, StoreError>>) -> (events: Vec<
        GcMarkEvent,
    >)
        ensures
            final(self)@.complete == old(self)@.complete,
            final(self)@.partial == old(self)@.partial,
            final(self)@.tags == old(self)@.tags,
            final(self)@.temp == old(self)@.temp,
            (exists|j: int|
                0 <= j < extra_roots@.len() && (#[trigger] extra_roots@[j]) is Err)
                ==> final(self)@.live == old(self)@.live && events@.len() >= 1 && (exists|j: int|
                {
                    &&& 0 <= j < extra_roots@.len()
                    &&& (#[trigger] extra_roots@[j]) is Err
                    &&& (forall|k: int| 0 <= k < j ==> (#[trigger] extra_roots@[k]) is Ok)
                    &&& events@.last() == GcMarkEvent::Error(extra_roots@[j]->Err_0)
                }),
            (forall|j: int| 0 <= j < extra_roots@.len() ==> (#[trigger] extra_roots@[j]) is Ok)
                ==> {
                &&& final(self)@.live == old(self)@.live.union(
                    Set::new(|h: Seq<u8>| mark_reaches(old(self)@, extra_roots@, h)),
                )
                &&& forall|j: int| 0 <= j < events@.len() ==> !((#[trigger] events@[j]) is Error)
                &&& events@.len() >= 1 && events@.last() is CustomDebug
                &&& bad_hash_seq_root(old(self)@, extra_roots@) ==> has_warning(events@)
            },
    {
        let mut events: Vec<GcMarkEvent> = Vec::new();
        // collect the roots
        let mut roots: Vec<HashAndFormat> = Vec::new();
        let tag_list = self.tags();
        let mut i: usize = 0;
        while i < tag_list.len()
            invariant
                i <= tag_list@.len(),
                roots@.len() == i,
                self == old(self),
                forall|j: int|
                    0 <= j < tag_list@.len() ==> old(self)@.tags.contains_key(
                        #[trigger] tag_list@[j].0@,
                    ) && old(self)@.tags[tag_list@[j].0@] == tag_list@[j].1@,
                forall|k: int| 0 <= k < i ==> #[trigger] roots@[k] == tag_list@[k].1,
                forall|k: int|
                    0 <= k < i ==> is_gc_root(old(self)@, extra_roots@, (#[trigger] roots@[k])@),
            decreases tag_list@.len() - i,
        {
            proof {
                assert(old(self)@.tags.contains_key(tag_list@[i as int].0@));
                assert(old(self)@.tags[tag_list@[i as int].0@] == tag_list@[i as int].1@);
                assert(is_gc_root(old(self)@, extra_roots@, tag_list@[i as int].1@));
            }
            roots.push(tag_list[i].1);
            i += 1;
        }
        let ghost n_tags = roots@.len();
        let temp_list = self.temp_tags();
        let mut i: usize = 0;
        while i < temp_list.len()
            invariant
                i <= temp_list@.len(),
                roots@.len() == n_tags + i,
                self == old(self),
                forall|k: int| 0 <= k < n_tags ==> #[trigger] roots@[k] == tag_list@[k].1,
                forall|k: int| 0 <= k < i ==> #[trigger] roots@[n_tags + k] == temp_list@[k],
                vset_of(haf_views(temp_list@)) == vset_of(old(self)@.temp),
                forall|k: int|
                    0 <= k < roots@.len() ==> is_gc_root(
                        old(self)@,
                        extra_roots@,
                        (#[trigger] roots@[k])@,
                    ),
            decreases temp_list@.len() - i,
        {
            proof {
                assert(haf_views(temp_list@)[i as int] == temp_list@[i as int]@);
                lemma_vset_contains(haf_views(temp_list@), temp_list@[i as int]@);
                assert(vset_of(old(self)@.temp).contains(temp_list@[i as int]@));
                lemma_vset_contains(old(self)@.temp, temp_list@[i as int]@);
                assert(old(self)@.temp.contains(temp_list@[i as int]@));
                assert(is_gc_root(old(self)@, extra_roots@, temp_list@[i as int]@));
            }
            roots.push(temp_list[i]);
            i += 1;
        }
        let ghost n_temp = temp_list@.len();
        let mut i: usize = 0;
        while i < extra_roots.len()
            invariant
                i <= extra_roots@.len(),
                roots@.len() == n_tags + n_temp + i,
                events@.len() == 0,
                forall|k: int| 0 <= k < n_tags ==> #[trigger] roots@[k] == tag_list@[k].1,
                forall|k: int| 0 <= k < n_temp ==> #[trigger] roots@[n_tags + k] == temp_list@[k],
                forall|k: int|
                    0 <= k < i ==> (#[trigger] extra_roots@[k] matches Ok(h) && roots@[n_tags
                        + n_temp + k] == h),
                forall|k: int|
                    0 <= k < roots@.len() ==> is_gc_root(
                        old(self)@,
                        extra_roots@,
                        (#[trigger] roots@[k])@,
                    ),
                self == old(self),
            decreases extra_roots@.len() - i,
        {
            match &extra_roots[i] {
                Ok(h) => {
                    proof {
                        assert(extra_roots@[i as int] matches Ok(hh) && hh@ == h@);
                        assert(is_gc_root(old(self)@, extra_roots@, h@));
                    }
                    roots.push(*h);
                },
                Err(e) => {
                    events.push(GcMarkEvent::Error(*e));
                    proof {
                        assert(extra_roots@[i as int] is Err);
                        assert(extra_roots@[i as int]->Err_0 == *e);
                        assert(events@.last() == GcMarkEvent::Error(
                            extra_roots@[i as int]->Err_0,
                        ));
                    }
                    return events;
                },
            }
            i += 1;
        }
        // mark: every root's hash, and the children of complete hash-sequence
        // roots
        let mut marked: Vec<BlobHash> = Vec::new();
        let mut i: usize = 0;
        while i < roots.len()
            invariant
                i <= roots@.len(),
                self == old(self),
                forall|k: int|
                    0 <= k < roots@.len() ==> is_gc_root(
                        old(self)@,
                        extra_roots@,
                        (#[trigger] roots@[k])@,
                    ),
                forall|h: Seq<u8>|
                    #[trigger] lset_of(marked@).contains(h) ==> mark_reaches(
                        old(self)@,
                        extra_roots@,
                        h,
                    ),
                forall|j: int| 0 <= j < events@.len() ==> !((#[trigger] events@[j]) is Error),
                forall|k: int|
                    0 <= k < i && (#[trigger] roots@[k]).format == BlobFormat::HashSeq && (
                    !old(self)@.complete.contains_key(roots@[k].hash@) || parse_hash_seq_spec(
                        old(self)@.complete[roots@[k].hash@].0,
                    ) is None) ==> has_warning(events@),
                forall|k: int|
                    0 <= k < i ==> lset_of(marked@).contains(#[trigger] roots@[k].hash@),
                forall|k: int, c: int|
                    #![trigger roots@[k], parse_hash_seq_spec(
                        self@.complete[roots@[k].hash@].0,
                    )->Some_0[c]]
                    {
                        (0 <= k < i && roots@[k].format == BlobFormat::HashSeq
                            && self@.complete.contains_key(roots@[k].hash@)
                            && parse_hash_seq_spec(self@.complete[roots@[k].hash@].0) is Some && 0
                            <= c < parse_hash_seq_spec(
                            self@.complete[roots@[k].hash@].0,
                        )->Some_0.len()) ==> lset_of(marked@).contains(
                            parse_hash_seq_spec(self@.complete[roots@[k].hash@].0)->Some_0[c],
                        )
                    },
            decreases roots@.len() - i,
        {
            let root = roots[i];
            let ghost pre = marked@;
            marked.push(root.hash);
            proof {
                assert(marked@.drop_last() =~= pre);
                assert(lset_of(marked@) == lset_of(pre).insert(root.hash@));
                assert(is_gc_root(old(self)@, extra_roots@, roots@[i as int]@));
                assert(mark_reaches(old(self)@, extra_roots@, root.hash@));
                assert forall|h: Seq<u8>| #[trigger]
                    lset_of(marked@).contains(h) implies mark_reaches(
                    old(self)@,
                    extra_roots@,
                    h,
                ) by {
                    if h != root.hash@ {
                        assert(lset_of(pre).contains(h));
                    }
                }
            }
            if !root.format.is_raw() {
                match self.get(&root.hash) {
                    Some(entry) => {
                        match parse_hash_seq(&entry.data) {
                            Ok(children) => {
                                let mut c: usize = 0;
                                proof {
                                    lemma_lset_contains(marked@, root.hash@);
                                    assert(root.format == BlobFormat::HashSeq);
                                }
                                while c < children.len()
                                    invariant
                                        c <= children@.len(),
                                        self == old(self),
                                        i < roots@.len(),
                                        root == roots@[i as int],
                                        root.format == BlobFormat::HashSeq,
                                        is_gc_root(old(self)@, extra_roots@, roots@[i as int]@),
                                        old(self)@.complete.contains_key(root.hash@),
                                        old(self)@.complete[root.hash@].0 == entry.data@,
                                        parse_hash_seq_spec(entry.data@) == Some(
                                            seq_views(children@),
                                        ),
                                        lset_of(pre).insert(root.hash@).subset_of(
                                            lset_of(marked@),
                                        ),
                                        forall|h: Seq<u8>|
                                            #[trigger] lset_of(marked@).contains(h)
                                                ==> mark_reaches(old(self)@, extra_roots@, h),
                                        forall|k: int|
                                            0 <= k < c ==> lset_of(marked@).contains(
                                                #[trigger] children@[k]@,
                                            ),
                                    decreases children@.len() - c,
                                {
                                    let ghost pre2 = marked@;
                                    marked.push(children[c]);
                                    proof {
                                        assert(marked@.drop_last() =~= pre2);
                                        assert(lset_of(marked@) == lset_of(pre2).insert(
                                            children@[c as int]@,
                                        ));
                                        let m = old(self)@;
                                        let ex = extra_roots@;
                                        let t = roots@[i as int]@;
                                        assert(is_gc_root(m, ex, roots@[i as int]@));
                                        assert(t.0 == root.hash@ && t.1 == BlobFormat::HashSeq);
                                        assert(m.complete[t.0].0 == entry.data@);
                                        assert(parse_hash_seq_spec(m.complete[t.0].0)
                                            == Some(seq_views(children@)));
                                        assert(parse_hash_seq_spec(m.complete[t.0].0)->Some_0[
                                            c as int
                                        ] == children@[c as int]@);
                                        assert(mark_reaches(m, ex, children@[c as int]@));
                                        assert forall|h: Seq<u8>| #[trigger]
                                            lset_of(marked@).contains(h) implies mark_reaches(
                                            m,
                                            ex,
                                            h,
                                        ) by {
                                            if h != children@[c as int]@ {
                                                assert(lset_of(pre2).contains(h));
                                            }
                                        }
                                    }
                                    c += 1;
                                }
                                proof {
                                    assert(seq_views(children@).len() == children@.len());
                                    assert forall|k: int|
                                        0 <= k < children@.len() implies lset_of(
                                        marked@,
                                    ).contains(seq_views(children@)[k]) by {
                                        assert(seq_views(children@)[k] == children@[k]@);
                                    }
                                }
                            },
                            Err(_) => {
                                let ghost pre_ev = events@;
                                events.push(
                                    GcMarkEvent::CustomWarning(
                                        "gc mark: a hash-sequence root did not parse".to_owned(),
                                        Some(StoreError::InvalidData),
                                    ),
                                );
                                proof {
                                    assert(events@.drop_last() =~= pre_ev);
                                    assert(has_warning(events@));
                                }
                            },
                        }
                    },
                    None => {
                        let ghost pre_ev = events@;
                        if self.entry_status(&root.hash) == crate::store::EntryStatus::Partial {
                            events.push(
                                GcMarkEvent::CustomWarning(
                                    "gc mark: a hash-sequence root is only partial".to_owned(),
                                    None,
                                ),
                            );
                        } else {
                            events.push(
                                GcMarkEvent::CustomWarning(
                                    "gc mark: a hash-sequence root is missing".to_owned(),
                                    None,
                                ),
                            );
                        }
                        proof {
                            assert(events@.drop_last() =~= pre_ev);
                            assert(has_warning(events@));
                        }
                    },
                }
            }
            i += 1;
        }
        let ghost pre_ev = events@;
        let summary = String::from_str("gc mark done: ").concat(
            marked.len().to_string().as_str(),
        ).concat(" live hashes found");
        events.push(GcMarkEvent::CustomDebug(summary));
        self.add_live(&marked);
        proof {
            let m = old(self)@;
            let ex = extra_roots@;
            // every root target stands somewhere in the collected list
            assert forall|t: (Seq<u8>, BlobFormat)| #[trigger]
                is_gc_root(m, ex, t) implies exists|k: int|
                0 <= k < roots@.len() && roots@[k]@ == t by {
                if exists|n: Seq<u8>| #[trigger] m.tags.contains_key(n) && m.tags[n] == t {
                    let n = choose|n: Seq<u8>| #[trigger] m.tags.contains_key(n) && m.tags[n] == t;
                    lemma_keys_contains(tag_kvs(tag_list@), n);
                    let j = choose|j: int|
                        0 <= j < tag_kvs(tag_list@).len() && tag_kvs(tag_list@)[j].0 == n;
                    assert(tag_kvs(tag_list@)[j].0 == tag_list@[j].0@);
                    assert(m.tags[tag_list@[j].0@] == tag_list@[j].1@);
                    assert(tag_list@[j].1@ == t);
                    assert(roots@[j]@ == t);
                } else if m.temp.contains(t) {
                    let wi = choose|wi: int| 0 <= wi < m.temp.len() && m.temp[wi] == t;
                    lemma_vset_contains(m.temp, t);
                    lemma_vset_contains(haf_views(temp_list@), t);
                    assert(vset_of(haf_views(temp_list@)).contains(t));
                    let j = choose|j: int|
                        0 <= j < haf_views(temp_list@).len() && haf_views(temp_list@)[j] == t;
                    assert(haf_views(temp_list@)[j] == temp_list@[j]@);
                    assert(temp_list@[j]@ == t);
                    assert(roots@[n_tags + j]@ == t);
                } else {
                    let j = choose|j: int|
                        0 <= j < ex.len() && (#[trigger] ex[j] matches Ok(h) && h@ == t);
                    assert(roots@[n_tags + n_temp + j]@ == t);
                }
            }
            // everything reached is marked
            assert forall|h: Seq<u8>| mark_reaches(m, ex, h) implies final(self)@.live.contains(
                h,
            ) by {
                if exists|t: (Seq<u8>, BlobFormat)| #[trigger] is_gc_root(m, ex, t) && t.0 == h {
                    let t = choose|t: (Seq<u8>, BlobFormat)|
                        #[trigger] is_gc_root(m, ex, t) && t.0 == h;
                    let k = choose|k: int| 0 <= k < roots@.len() && roots@[k]@ == t;
                    assert(lset_of(marked@).contains(roots@[k].hash@));
                } else {
                    let (t, c) = choose|t: (Seq<u8>, BlobFormat), c: int|
                        #![trigger is_gc_root(m, ex, t), parse_hash_seq_spec(
                            m.complete[t.0].0,
                        )->Some_0[c]]
                        {
                            &&& is_gc_root(m, ex, t)
                            &&& t.1 == BlobFormat::HashSeq
                            &&& m.complete.contains_key(t.0)
                            &&& parse_hash_seq_spec(m.complete[t.0].0) is Some
                            &&& 0 <= c < parse_hash_seq_spec(m.complete[t.0].0)->Some_0.len()
                            &&& parse_hash_seq_spec(m.complete[t.0].0)->Some_0[c] == h
                        };
                    let k = choose|k: int| 0 <= k < roots@.len() && roots@[k]@ == t;
                    assert(roots@[k].hash@ == t.0 && roots@[k].format == t.1);
                    assert(lset_of(marked@).contains(
                        parse_hash_seq_spec(m.complete[roots@[k].hash@].0)->Some_0[c],
                    ));
                }
            }
            // and nothing beyond the reached set was marked
            let reached = Set::new(|h: Seq<u8>| mark_reaches(m, ex, h));
            assert forall|h: Seq<u8>| #[trigger]
                final(self)@.live.contains(h) implies m.live.contains(h) || reached.contains(
                h,
            ) by {
                if !m.live.contains(h) {
                    assert(lset_of(marked@).contains(h));
                    assert(mark_reaches(m, ex, h));
                }
            }
            assert(final(self)@.live =~= m.live.union(reached));
            // the events end with the summary and hold no error
            assert(events@.drop_last() =~= pre_ev);
            assert(events@.last() is CustomDebug);
            if bad_hash_seq_root(m, ex) {
                let t = choose|t: (Seq<u8>, BlobFormat)|
                    #[trigger] is_gc_root(m, ex, t) && t.1 == BlobFormat::HashSeq && (
                    !m.complete.contains_key(t.0) || parse_hash_seq_spec(m.complete[t.0].0)
                        is None);
                let k = choose|k: int| 0 <= k < roots@.len() && roots@[k]@ == t;
                assert(roots@[k].format == BlobFormat::HashSeq && roots@[k].hash@ == t.0);
                assert(has_warning(pre_ev));
                assert(has_warning(events@));
            }
        }
        events
    }
}

} // verus!

verus! {

/// The hashes among the first `j` of a list that are not live.
pub open spec fn nonlive_prefix(l: Seq<BlobHash>, live: Set<Seq<u8>>, j: int) -> Set<Seq<u8>>
    decreases j,
{
    if j <= 0 {
        Set::empty()
    } else {
        let rest = nonlive_prefix(l, live, j - 1);
        if live.contains(l[j - 1]@) {
            rest
        } else {
            rest.insert(l[j - 1]@)
        }
    }
}

/// A hash is among the non-live prefix exactly when the list names it there
/// and it is not live.
pub proof fn lemma_nonlive_contains(l: Seq<BlobHash>, live: Set<Seq<u8>>, j: int, h: Seq<u8>)
    requires
        j <= l.len(),
    ensures
        nonlive_prefix(l, live, j).contains(h) <==> ((exists|k: int| 0 <= k < j && l[k]@ == h)
            && !live.contains(h)),
    decreases j,
{
    if j > 0 {
        lemma_nonlive_contains(l, live, j - 1, h);
        if nonlive_prefix(l, live, j).contains(h) {
        } else {
            if l[j - 1]@ == h && !live.contains(h) {
                assert(nonlive_prefix(l, live, j).contains(h));
            }
        }
    }
}

impl Store {
    /// The sweep phase: walk all complete and partial blobs and delete, in
    /// batches of at most a hundred, every one that is not in the live set.
    /// What is live stays; tags, pins and the live set are untouched; the
    /// events are one summary, no error.
    pub fn gc_sweep(&mut self) -> (events: Vec<GcSweepEvent>)
        ensures
            final(self)@.complete == old(self)@.complete.restrict(old(self)@.live),
            final(self)@.partial == old(self)@.partial.restrict(old(self)@.live),
            final(self)@.tags == old(self)@.tags,
            final(self)@.temp == old(self)@.temp,
            final(self)@.live == old(self)@.live,
            events@.len() == 1 && events@[0] is CustomDebug,
    {
        let mut events: Vec<GcSweepEvent> = Vec::new();
        let mut list = self.blobs();
        let ghost blob_list = list@;
        let mut partials = self.partial_blobs();
        let ghost partial_list = partials@;
        list.append(&mut partials);
        let ghost l = list@;
        let mut count: u64 = 0;
        let mut batch: Vec<BlobHash> = Vec::new();
        let ghost mut removed = Set::<Seq<u8>>::empty();
        let mut j: usize = 0;
        while j < list.len()
            invariant
                j <= l.len(),
                l == list@,
                self@.complete == old(self)@.complete.remove_keys(removed),
                self@.partial == old(self)@.partial.remove_keys(removed),
                self@.tags == old(self)@.tags,
                self@.temp == old(self)@.temp,
                self@.live == old(self)@.live,
                removed.union(lset_of(batch@)) == nonlive_prefix(l, old(self)@.live, j as int),
            decreases l.len() - j,
        {
            let ghost pre_batch = batch@;
            if !self.is_live(&list[j]) {
                if count < u64::MAX {
                    count += 1;
                }
                batch.push(list[j]);
                proof {
                    assert(batch@.drop_last() =~= pre_batch);
                    assert(removed.union(lset_of(batch@)) =~= nonlive_prefix(
                        l,
                        old(self)@.live,
                        j + 1,
                    ));
                }
            } else {
                proof {
                    assert(removed.union(lset_of(batch@)) =~= nonlive_prefix(
                        l,
                        old(self)@.live,
                        j + 1,
                    ));
                }
            }
            if batch.len() >= 100 {
                let _ = self.delete(&batch);
                proof {
                    removed = removed.union(lset_of(batch@));
                    assert(self@.complete =~= old(self)@.complete.remove_keys(removed));
                    assert(self@.partial =~= old(self)@.partial.remove_keys(removed));
                }
                batch.clear();
                proof {
                    assert(lset_of(batch@) =~= Set::<Seq<u8>>::empty());
                    assert(removed.union(lset_of(batch@)) =~= removed);
                }
            }
            j += 1;
        }
        if batch.len() > 0 {
            let _ = self.delete(&batch);
            proof {
                removed = removed.union(lset_of(batch@));
                assert(self@.complete =~= old(self)@.complete.remove_keys(removed));
                assert(self@.partial =~= old(self)@.partial.remove_keys(removed));
            }
        } else {
            proof {
                assert(lset_of(batch@) =~= Set::<Seq<u8>>::empty());
                removed = removed.union(lset_of(batch@));
                assert(removed.union(lset_of(batch@)) =~= removed);
            }
        }
        let summary = String::from_str("gc sweep deleted ").concat(
            count.to_string().as_str(),
        ).concat(" blobs");
        events.push(GcSweepEvent::CustomDebug(summary));
        proof {
            let live = old(self)@.live;
            assert(removed =~= nonlive_prefix(l, live, l.len() as int));
            assert forall|h: Seq<u8>| #![trigger removed.contains(h)] true implies {
                (removed.contains(h) <==> ((exists|k: int| 0 <= k < l.len() && l[k]@ == h)
                    && !live.contains(h)))
            } by {
                lemma_nonlive_contains(l, live, l.len() as int, h);
            }
            assert forall|h: Seq<u8>|
                old(self)@.complete.dom().contains(h) implies (removed.contains(h)
                <==> !live.contains(h)) by {
                lemma_lset_contains(blob_list, h);
                if !live.contains(h) {
                    let k = choose|k: int| 0 <= k < blob_list.len() && blob_list[k]@ == h;
                    assert(l[k] == blob_list[k]);
                    assert(removed.contains(h));
                }
            }
            assert forall|h: Seq<u8>|
                old(self)@.partial.dom().contains(h) implies (removed.contains(h)
                <==> !live.contains(h)) by {
                lemma_lset_contains(partial_list, h);
                if !live.contains(h) {
                    let k = choose|k: int| 0 <= k < partial_list.len() && partial_list[k]@ == h;
                    assert(l[blob_list.len() + k] == partial_list[k]);
                    assert(removed.contains(h));
                }
            }
            assert(self@.complete =~= old(self)@.complete.restrict(live));
            assert(self@.partial =~= old(self)@.partial.restrict(live));
        }
        events
    }
}

} // verus!
