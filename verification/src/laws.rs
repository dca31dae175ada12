//! The store's cross-cutting guarantees, stated once over the model that
//! every contract in this crate speaks of.

use vstd::prelude::*;

use crate::error::StoreError;
use crate::gc::mark_reaches;
use crate::hash::{BlobFormat, HashAndFormat};
use crate::store::{StoreModel, EntryStatus, entry_status_spec, read_spec, assemble, covered,
    chunks_sized};
use crate::tree::{blob_hash, outboard_bytes};
use crate::validate::validate_pair_ok;
use crate::events::ValidateProgress;

verus! {

/// Round trip: importing a byte string `b` files it complete under
/// `blob_hash(b)`, pins that hash, and a full read of the entry yields `b`
/// again.
pub proof fn lemma_import_round_trip(m: StoreModel, b: Seq<u8>, format: BlobFormat)
    ensures
        ({
            let m2 = StoreModel {
                complete: m.complete.insert(blob_hash(b), (b, outboard_bytes(b))),
                partial: m.partial.remove(blob_hash(b)),
                tags: m.tags,
                temp: m.temp.push((blob_hash(b), format)),
                live: m.live,
            };
            &&& m2.complete.contains_key(blob_hash(b))
            &&& m2.complete[blob_hash(b)].0 == b
            &&& read_spec(m2.complete[blob_hash(b)].0, 0, b.len()) == b
            &&& m2.temp.contains((blob_hash(b), format))
        }),
{
    assert(read_spec(b, 0, b.len()) =~= b);
    let m2_temp = m.temp.push((blob_hash(b), format));
    assert(m2_temp[m2_temp.len() - 1] == (blob_hash(b), format));
}

/// A validation pair flags corruption: when the stored bytes of an announced
/// entry no longer hash to its hash, its `Done` event carries an error.
pub proof fn lemma_validate_flags_mismatch(
    m: StoreModel,
    a: ValidateProgress,
    b: ValidateProgress,
    j: int,
)
    requires
        validate_pair_ok(m, a, b, j),
        a matches ValidateProgress::Entry { hash, .. } && blob_hash(m.complete[hash@].0) != hash@,
    ensures
        b matches ValidateProgress::Done { error, .. } && error is Some,
{
}

/// Monotonic ranges: across any chain of states each of which keeps every
/// chunk of the one before it, the first state's chunks are still present in
/// the last. Each accepted batch keeps the chunk map growing (see
/// `lemma_apply_leaves_monotone`), so this applies to any sequence of
/// accepted batches.
pub proof fn lemma_ranges_monotone(rs: Seq<Set<nat>>)
    requires
        rs.len() > 0,
        forall|i: int| 0 <= i < rs.len() - 1 ==> (#[trigger] rs[i]).subset_of(rs[i + 1]),
    ensures
        rs.first().subset_of(rs.last()),
    decreases rs.len(),
{
    if rs.len() > 1 {
        assert forall|i: int|
            0 <= i < rs.drop_last().len() - 1 implies (#[trigger] rs.drop_last()[i]).subset_of(
            rs.drop_last()[i + 1],
        ) by {
            assert(rs.drop_last()[i] == rs[i]);
            assert(rs.drop_last()[i + 1] == rs[i + 1]);
        }
        lemma_ranges_monotone(rs.drop_last());
        assert(rs.drop_last().first() == rs.first());
        assert(rs.drop_last().last() == rs[rs.len() - 2]);
        assert(rs[rs.len() - 2].subset_of(rs.last()));
    }
}

/// Promotion atomicity: promoting a covered, well-sized, verified partial
/// entry switches the lookup view in one step — afterwards the hash reads as
/// one complete entry holding the assembled bytes, and no partial entry
/// remains for it.
pub proof fn lemma_promotion_view(m: StoreModel, h: Seq<u8>)
    requires
        m.partial.contains_key(h),
        covered(m.partial[h].2, m.partial[h].0),
        chunks_sized(m.partial[h].2, m.partial[h].0),
        blob_hash(assemble(m.partial[h].2, m.partial[h].0)) == h,
    ensures
        ({
            let data = assemble(m.partial[h].2, m.partial[h].0);
            let m2 = StoreModel {
                complete: m.complete.insert(h, (data, outboard_bytes(data))),
                partial: m.partial.remove(h),
                tags: m.tags,
                temp: m.temp,
                live: m.live,
            };
            &&& entry_status_spec(m2, h) == EntryStatus::Complete
            &&& m2.complete[h].0 == data
            &&& read_spec(m2.complete[h].0, 0, data.len()) == data
            &&& !m2.partial.contains_key(h)
        }),
{
    let data = assemble(m.partial[h].2, m.partial[h].0);
    assert(read_spec(data, 0, data.len()) =~= data);
}

/// GC safety: any hash the mark phase reaches from a tag, a temporary pin or
/// an extra root — directly or as the child of a complete hash-sequence
/// root — survives a sweep against the live set that mark published.
pub proof fn lemma_gc_safety(
    m: StoreModel,
    extra: Seq<Result<HashAndFormat, StoreError>>,
    live: Set<Seq<u8>>,
    h: Seq<u8>,
)
    requires
        forall|x: Seq<u8>| #[trigger] mark_reaches(m, extra, x) ==> live.contains(x),
        mark_reaches(m, extra, h),
    ensures
        m.complete.restrict(live).contains_key(h) <==> m.complete.contains_key(h),
        m.partial.restrict(live).contains_key(h) <==> m.partial.contains_key(h),
{
}

/// Temp-tag lifetime: while a temporary pin for a target is held, its hash
/// is in any live set that satisfies the mark phase's promise, whatever the
/// persistent tags say.
pub proof fn lemma_temp_tag_live(
    m: StoreModel,
    extra: Seq<Result<HashAndFormat, StoreError>>,
    live: Set<Seq<u8>>,
    t: (Seq<u8>, BlobFormat),
)
    requires
        forall|x: Seq<u8>| #[trigger] mark_reaches(m, extra, x) ==> live.contains(x),
        m.temp.contains(t),
    ensures
        live.contains(t.0),
{
    assert(crate::gc::is_gc_root(m, extra, t));
    assert(mark_reaches(m, extra, t.0));
}

} // verus!
