//! The hash-sequence blob format: a little-endian count followed by that
//! many 32-byte child hashes, with no padding and no terminator. A blob in
//! this format names a flat collection of child blobs, which the garbage
//! collector pins together with the collection itself.

use vstd::prelude::*;

use crate::error::StoreError;
use crate::hash::BlobHash;
use crate::wire::{u64_from_le, u64_le_bytes, lemma_u64_le_round_trip, read_u64_le, write_u64_le};

verus! {

/// The views of a sequence of hashes.
pub open spec fn seq_views(s: Seq<BlobHash>) -> Seq<Seq<u8>> {
    s.map_values(|h: BlobHash| h@)
}

/// The concatenation of a sequence of byte strings.
pub open spec fn concat_bytes(s: Seq<Seq<u8>>) -> Seq<u8>
    decreases s.len(),
{
    if s.len() == 0 {
        Seq::empty()
    } else {
        concat_bytes(s.drop_last()) + s.last()
    }
}

/// Concatenating `n` byte strings of 32 bytes each gives `32 * n` bytes.
pub proof fn lemma_concat_len(s: Seq<Seq<u8>>)
    requires
        forall|i: int| 0 <= i < s.len() ==> s[i].len() == 32,
    ensures
        concat_bytes(s).len() == 32 * s.len(),
    decreases s.len(),
{
    if s.len() > 0 {
        lemma_concat_len(s.drop_last());
    }
}

/// Each 32-byte slice of a concatenation of 32-byte strings is the
/// corresponding element.
pub proof fn lemma_concat_index(s: Seq<Seq<u8>>, i: int)
    requires
        forall|j: int| 0 <= j < s.len() ==> s[j].len() == 32,
        0 <= i < s.len(),
    ensures
        concat_bytes(s).subrange(32 * i, 32 * i + 32) == s[i],
    decreases s.len(),
{
    lemma_concat_len(s);
    if i == s.len() - 1 {
        lemma_concat_len(s.drop_last());
        assert(concat_bytes(s).subrange(32 * i, 32 * i + 32) =~= s[i]);
    } else {
        lemma_concat_index(s.drop_last(), i);
        lemma_concat_len(s.drop_last());
        assert(concat_bytes(s).subrange(32 * i, 32 * i + 32) =~= concat_bytes(
            s.drop_last(),
        ).subrange(32 * i, 32 * i + 32));
    }
}

/// The encoding of a sequence of 32-byte hashes: count, then the hashes.
pub open spec fn hash_seq_bytes(hashes: Seq<Seq<u8>>) -> Seq<u8>
    recommends
        hashes.len() <= u64::MAX,
{
    u64_le_bytes(hashes.len() as u64) + concat_bytes(hashes)
}

/// What a byte string decodes to under the hash-sequence format, if anything:
/// the count must be present and the rest must be exactly that many 32-byte
/// hashes.
pub open spec fn parse_hash_seq_spec(data: Seq<u8>) -> Option<Seq<Seq<u8>>> {
    if data.len() < 8 {
        None
    } else {
        let count = u64_from_le(data.subrange(0, 8));
        if data.len() == 8 + 32 * (count as int) {
            Some(
                Seq::new(
                    count as nat,
                    |i: int| data.subrange(8 + 32 * i, 8 + 32 * i + 32),
                ),
            )
        } else {
            None
        }
    }
}

/// Encode a sequence of hashes as a hash-sequence blob.
pub fn encode_hash_seq(hashes: &Vec<BlobHash>) -> (r: Vec<u8>)
    ensures
        r@ == hash_seq_bytes(seq_views(hashes@)),
{
    let mut out: Vec<u8> = Vec::new();
    write_u64_le(&mut out, hashes.len() as u64);
    let mut i: usize = 0;
    while i < hashes.len()
        invariant
            i <= hashes@.len(),
            out@ == u64_le_bytes(hashes@.len() as u64) + concat_bytes(
                seq_views(hashes@.subrange(0, i as int)),
            ),
        decreases hashes@.len() - i,
    {
        crate::tree::push_hash(&mut out, &hashes[i]);
        proof {
            assert(seq_views(hashes@.subrange(0, i + 1)).drop_last() =~= seq_views(
                hashes@.subrange(0, i as int),
            ));
            assert(out@ =~= u64_le_bytes(hashes@.len() as u64) + concat_bytes(
                seq_views(hashes@.subrange(0, i + 1)),
            ));
        }
        i += 1;
    }
    proof {
        assert(hashes@.subrange(0, hashes@.len() as int) =~= hashes@);
    }
    out
}

/// Read the 32 bytes at `at` as a hash.
pub(crate) fn read_hash_at(data: &Vec<u8>, at: usize) -> (h: BlobHash)
    requires
        at + 32 <= data@.len(),
    ensures
        h@ == data@.subrange(at as int, at as int + 32),
{
    let len = data.len();
    let mut bytes: [u8; 32] = [0; 32];
    let mut k: usize = 0;
    while k < 32
        invariant
            k <= 32,
            at + 32 <= data@.len(),
            len == data@.len(),
            forall|j: int| 0 <= j < k ==> bytes@[j] == data@[at + j],
        decreases 32 - k,
    {
        bytes[k] = data[at + k];
        k += 1;
    }
    let h = BlobHash::from_bytes(bytes);
    proof {
        assert(h@ =~= data@.subrange(at as int, at as int + 32));
    }
    h
}

/// Decode a hash-sequence blob. Returns the child hashes, or `InvalidData`
/// exactly when the bytes are not a well-formed hash sequence.
pub fn parse_hash_seq(data: &Vec<u8>) -> (r: Result<Vec<BlobHash>, StoreError>)
    ensures
        match r {
            Ok(hs) => parse_hash_seq_spec(data@) == Some(seq_views(hs@)),
            Err(e) => e == StoreError::InvalidData && parse_hash_seq_spec(data@) is None,
        },
{
    let len = data.len();
    if len < 8 {
        return Err(StoreError::InvalidData);
    }
    let count = read_u64_le(data, 0);
    let m = (len - 8) / 32;
    if (len - 8) % 32 != 0 || count != m as u64 {
        return Err(StoreError::InvalidData);
    }
    proof {
        vstd::arithmetic::div_mod::lemma_fundamental_div_mod((len - 8) as int, 32);
    }
    let mut hashes: Vec<BlobHash> = Vec::new();
    let mut i: usize = 0;
    while i < m
        invariant
            i <= m,
            len == data@.len(),
            8 + 32 * m <= data@.len(),
            hashes@.len() == i,
            forall|j: int|
                0 <= j < i ==> hashes@[j]@ == data@.subrange(8 + 32 * j, 8 + 32 * j + 32),
        decreases m - i,
    {
        let h = read_hash_at(data, 8 + 32 * i);
        hashes.push(h);
        i += 1;
    }
    proof {
        let parsed = parse_hash_seq_spec(data@);
        assert(parsed matches Some(s) && s =~= seq_views(hashes@));
    }
    Ok(hashes)
}

/// Decoding the encoding of any sequence of hashes yields that sequence, and
/// the decoded count equals its length.
pub proof fn lemma_hash_seq_round_trip(hashes: Seq<Seq<u8>>)
    requires
        hashes.len() <= u64::MAX,
        forall|i: int| 0 <= i < hashes.len() ==> hashes[i].len() == 32,
    ensures
        parse_hash_seq_spec(hash_seq_bytes(hashes)) == Some(hashes),
{
    let data = hash_seq_bytes(hashes);
    lemma_concat_len(hashes);
    assert(data.subrange(0, 8) =~= u64_le_bytes(hashes.len() as u64));
    lemma_u64_le_round_trip(hashes.len() as u64);
    let count = u64_from_le(data.subrange(0, 8));
    assert(count == hashes.len());
    assert forall|i: int| 0 <= i < hashes.len() implies data.subrange(8 + 32 * i, 8 + 32 * i + 32)
        == hashes[i] by {
        lemma_concat_index(hashes, i);
        assert(data.subrange(8 + 32 * i, 8 + 32 * i + 32) =~= concat_bytes(hashes).subrange(
            32 * i,
            32 * i + 32,
        ));
    }
    assert(parse_hash_seq_spec(data) matches Some(s) && s =~= hashes);
}

} // verus!
