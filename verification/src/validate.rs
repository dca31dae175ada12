//! Whole-store validation: recompute every complete entry's root hash from
//! its stored data and compare it to the hash the entry is filed under.

use vstd::prelude::*;

use crate::events::ValidateProgress;
use crate::store::{Store, StoreModel, lset_of, lemma_lset_contains};
use crate::tree::{blob_hash, compute_outboard};

verus! {

/// One entry's pair of validation events: an `Entry` announcement and a
/// `Done` whose error is absent exactly when the stored bytes hash back to
/// the entry's hash.
pub open spec fn validate_pair_ok(
    m: StoreModel,
    a: ValidateProgress,
    b: ValidateProgress,
    j: int,
) -> bool {
    &&& (a matches ValidateProgress::Entry { id, hash, path, size } && id == j as u64
        && m.complete.contains_key(hash@) && size == m.complete[hash@].0.len())
    &&& (a matches ValidateProgress::Entry { hash, .. } ==> (b
        matches ValidateProgress::Done { id, error } && id == j as u64 && (error is None
        <==> blob_hash(m.complete[hash@].0) == hash@)))
}

/// The hashes announced by `Entry` events.
pub open spec fn entry_hashes(events: Seq<ValidateProgress>) -> Set<Seq<u8>>
    decreases events.len(),
{
    if events.len() == 0 {
        Set::empty()
    } else {
        let rest = entry_hashes(events.drop_last());
        match events.last() {
            ValidateProgress::Entry { hash, .. } => rest.insert(hash@),
            _ => rest,
        }
    }
}

impl Store {
    /// Validate every complete entry: recompute its root hash from the
    /// stored data and compare. The events pair one `Entry` with one `Done`
    /// per entry, between a `Starting` and an `AllDone`; a `Done` carries an
    /// error exactly when the entry's bytes no longer hash to its hash, and
    /// every complete entry is announced.
    pub fn validate(&self) -> (events: Vec<ValidateProgress>)
        ensures
            events@.len() >= 2,
            (events@.len() - 2) % 2 == 0,
            events@[0] matches ValidateProgress::Starting { total } && total == ((events@.len()
                - 2) / 2) as u64,
            events@.last() == ValidateProgress::AllDone,
            forall|j: int|
                0 <= j < (events@.len() - 2) / 2 ==> validate_pair_ok(
                    self@,
                    #[trigger] events@[1 + 2 * j],
                    events@[2 + 2 * j],
                    j,
                ),
            entry_hashes(events@) == self@.complete.dom(),
    {
        let list = self.blobs();
        let mut events: Vec<ValidateProgress> = Vec::new();
        events.push(ValidateProgress::Starting { total: list.len() as u64 });
        proof {
            assert(events@.drop_last() =~= Seq::<ValidateProgress>::empty());
            assert(list@.subrange(0, 0) =~= Seq::<crate::hash::BlobHash>::empty());
            assert(entry_hashes(Seq::<ValidateProgress>::empty()) =~= Set::<Seq<u8>>::empty());
            assert(lset_of(Seq::<crate::hash::BlobHash>::empty()) =~= Set::<Seq<u8>>::empty());
            assert(entry_hashes(events@) =~= lset_of(list@.subrange(0, 0)));
        }
        let mut i: usize = 0;
        while i < list.len()
            invariant
                i <= list@.len(),
                lset_of(list@) == self@.complete.dom(),
                events@.len() == 1 + 2 * i,
                events@[0] matches ValidateProgress::Starting { total } && total
                    == list@.len() as u64,
                forall|j: int|
                    0 <= j < i ==> validate_pair_ok(
                        self@,
                        #[trigger] events@[1 + 2 * j],
                        events@[2 + 2 * j],
                        j,
                    ),
                entry_hashes(events@) == lset_of(list@.subrange(0, i as int)),
            decreases list@.len() - i,
        {
            let hash = list[i];
            proof {
                lemma_lset_contains(list@, hash@);
            }
            let entry = match self.get(&hash) {
                Some(e) => e,
                None => {
                    proof {
                        assert(false);
                    }
                    vstd::pervasive::unreached()
                },
            };
            let size = entry.data.len();
            let ghost ev0 = events@;
            events.push(
                ValidateProgress::Entry {
                    id: i as u64,
                    hash,
                    path: None,
                    size: size as u64,
                },
            );
            let (_outboard, root) = compute_outboard(&entry.data);
            let error: Option<String> = if root == hash {
                None
            } else {
                Some("stored data does not hash to the entry's hash".to_owned())
            };
            let ghost ev1 = events@;
            events.push(ValidateProgress::Done { id: i as u64, error });
            proof {
                assert(events@.drop_last() =~= ev1);
                assert(ev1.drop_last() =~= ev0);
                assert(entry_hashes(events@) == entry_hashes(ev1));
                assert(entry_hashes(ev1) == entry_hashes(ev0).insert(hash@));
                assert(list@.subrange(0, i + 1).drop_last() =~= list@.subrange(0, i as int));
                assert(entry_hashes(events@) =~= lset_of(list@.subrange(0, i + 1)));
            }
            i += 1;
        }
        let ghost evn = events@;
        events.push(ValidateProgress::AllDone);
        proof {
            assert(events@.drop_last() =~= evn);
            assert(entry_hashes(events@) == entry_hashes(evn));
            assert(list@.subrange(0, list@.len() as int) =~= list@);
            assert(entry_hashes(events@) =~= lset_of(list@));
        }
        events
    }
}

} // verus!
