//! The Merkle tree over a blob's chunks.
//!
//! A blob is split into 1024-byte chunks; an empty blob counts as one empty
//! chunk. The tree over `n` chunks splits them into a left subtree holding
//! the largest power of two below `n` and a right subtree holding the rest.
//! Every leaf carries the chaining value of its chunk, every inner node the
//! chaining value of its two children, and the root of the whole blob is the
//! blob's hash. The outboard of a blob is the size followed by the pairs of
//! child hashes of all inner nodes in pre-order: exactly what a consumer
//! needs to verify any chunk against the root hash.

use vstd::prelude::*;

use crate::hash::BlobHash;
use crate::wire::{u64_le_bytes, write_u64_le};

verus! {

/// The byte length of one leaf chunk.
pub const CHUNK_SIZE: u64 = 1024;

/// The number of leaf chunks of a blob of `size` bytes. An empty blob still
/// has one (empty) chunk.
pub open spec fn num_chunks(size: nat) -> nat {
    if size == 0 {
        1
    } else {
        (((size - 1) / 1024) + 1) as nat
    }
}

/// The number of leaf chunks, on machine integers.
pub fn num_chunks_of(size: u64) -> (r: u64)
    ensures
        r == num_chunks(size as nat),
{
    if size == 0 {
        1
    } else {
        (size - 1) / CHUNK_SIZE + 1
    }
}

/// The bytes of chunk `i` of a blob: the `i`-th 1024-byte slice, shorter if
/// the blob ends inside it.
pub open spec fn chunk_bytes(data: Seq<u8>, i: nat) -> Seq<u8>
    recommends
        i < num_chunks(data.len()),
{
    let lo = i * 1024;
    let hi = if data.len() < lo + 1024 {
        data.len()
    } else {
        lo + 1024
    };
    data.subrange(lo as int, hi as int)
}

/// The largest power of two strictly below `n`, for `n >= 2`: how many chunks
/// the left child of a node covering `n` chunks takes.
pub open spec fn pot_below(n: nat) -> nat
    decreases n,
{
    if n <= 2 {
        1
    } else {
        2 * pot_below((n + 1) / 2)
    }
}

/// `pot_below` really falls strictly below its argument.
pub proof fn lemma_pot_below(n: nat)
    requires
        n >= 2,
    ensures
        1 <= pot_below(n) < n,
    decreases n,
{
    if n > 2 {
        lemma_pot_below((n + 1) / 2);
    }
}

/// The BLAKE3 chaining value of one chunk: a function of the chunk counter,
/// the chunk bytes and the root flag alone.
pub uninterp spec fn chunk_hash_of(chunk: nat, data: Seq<u8>, is_root: bool) -> Seq<u8>;

/// The BLAKE3 chaining value of an inner node: a function of the two child
/// hashes and the root flag alone.
pub uninterp spec fn parent_hash_of(left: Seq<u8>, right: Seq<u8>, is_root: bool) -> Seq<u8>;

/// Relies on blake3::guts::ChunkState (bao_tree's re-export of BLAKE3): the
/// chaining value of one chunk is computed from the chunk counter, the chunk
/// bytes and the root flag, and is 32 bytes long. `ChunkState` takes one
/// chunk of at most 1024 bytes; more would fail its own length check.
#[verifier::external_body]
pub(crate) fn chunk_hash(chunk: u64, data: &[u8], is_root: bool) -> (r: BlobHash)
    requires
        data@.len() <= 1024,
    ensures
        r@ == chunk_hash_of(chunk as nat, data@, is_root),
{
    let mut state = bao_tree::blake3::guts::ChunkState::new(chunk);
    state.update(data);
    BlobHash::from_bytes(*state.finalize(is_root).as_bytes())
}

/// Relies on blake3::guts::parent_cv (bao_tree's re-export of BLAKE3): the
/// chaining value of an inner node is computed from its two child hashes and
/// the root flag, and is 32 bytes long.
#[verifier::external_body]
pub(crate) fn parent_hash(left: &BlobHash, right: &BlobHash, is_root: bool) -> (r: BlobHash)
    ensures
        r@ == parent_hash_of(left@, right@, is_root),
{
    let l = bao_tree::blake3::Hash::from_bytes(*left.as_bytes());
    let r = bao_tree::blake3::Hash::from_bytes(*right.as_bytes());
    BlobHash::from_bytes(*bao_tree::blake3::guts::parent_cv(&l, &r, is_root).as_bytes())
}

/// The hash of the subtree covering chunks `[start, start + n)` of a blob.
pub open spec fn subtree_hash(data: Seq<u8>, start: nat, n: nat, is_root: bool) -> Seq<u8>
    recommends
        n >= 1,
        start + n <= num_chunks(data.len()),
    decreases n,
{
    if n <= 1 {
        chunk_hash_of(start, chunk_bytes(data, start), is_root)
    } else {
        proof {
            lemma_pot_below(n);
        }
        let l = pot_below(n);
        parent_hash_of(
            subtree_hash(data, start, l, false),
            subtree_hash(data, (start + l) as nat, (n - l) as nat, false),
            is_root,
        )
    }
}

/// The root hash of a whole blob: its content address.
pub open spec fn blob_hash(data: Seq<u8>) -> Seq<u8> {
    subtree_hash(data, 0, num_chunks(data.len()), true)
}

/// The pre-order serialization of the inner nodes of the subtree covering
/// chunks `[start, start + n)`: each node's pair of child hashes, node before
/// its children, left before right. A single leaf has no inner nodes.
pub open spec fn preorder_pairs(data: Seq<u8>, start: nat, n: nat) -> Seq<u8>
    recommends
        n >= 1,
        start + n <= num_chunks(data.len()),
    decreases n,
{
    if n <= 1 {
        Seq::empty()
    } else {
        proof {
            lemma_pot_below(n);
        }
        let l = pot_below(n);
        subtree_hash(data, start, l, false) + subtree_hash(
            data,
            (start + l) as nat,
            (n - l) as nat,
            false,
        ) + preorder_pairs(data, start, l) + preorder_pairs(data, (start + l) as nat, (n - l) as nat)
    }
}

/// The outboard of a blob: the blob's size, little-endian, followed by the
/// pre-order pairs of its tree.
pub open spec fn outboard_bytes(data: Seq<u8>) -> Seq<u8>
    recommends
        data.len() <= u64::MAX,
{
    u64_le_bytes(data.len() as u64) + preorder_pairs(data, 0, num_chunks(data.len()))
}

/// Append the 32 bytes of `h` to `out`.
pub(crate) fn push_hash(out: &mut Vec<u8>, h: &BlobHash)
    ensures
        final(out)@ == old(out)@ + h@,
{
    let bytes = h.as_bytes();
    let mut i: usize = 0;
    while i < 32
        invariant
            i <= 32,
            bytes@ == h@,
            out@ == old(out)@ + h@.subrange(0, i as int),
        decreases 32 - i,
    {
        out.push(bytes[i]);
        proof {
            assert(out@ =~= old(out)@ + h@.subrange(0, i + 1));
        }
        i += 1;
    }
    proof {
        assert(h@.subrange(0, 32) =~= h@);
    }
}

/// Hash the subtree covering chunks `[start, start + n)` of `data`, and
/// append the subtree's pre-order pairs to `out`.
fn compute_subtree(data: &[u8], start: usize, n: usize, is_root: bool, out: &mut Vec<u8>) -> (h:
    BlobHash)
    requires
        1 <= n,
        start + n <= num_chunks(data@.len()),
    ensures
        h@ == subtree_hash(data@, start as nat, n as nat, is_root),
        final(out)@ == old(out)@ + preorder_pairs(data@, start as nat, n as nat),
    decreases n,
{
    let len = data.len();
    proof {
        if len > 0 {
            vstd::arithmetic::div_mod::lemma_fundamental_div_mod((len - 1) as int, 1024);
        }
    }
    if n == 1 {
        let lo = start * 1024;
        let hi = if len - lo < 1024 {
            len
        } else {
            lo + 1024
        };
        let chunk = vstd::slice::slice_subrange(data, lo, hi);
        let h = chunk_hash(start as u64, chunk, is_root);
        proof {
            assert(out@ =~= old(out)@ + preorder_pairs(data@, start as nat, n as nat));
        }
        h
    } else {
        proof {
            lemma_pot_below(n as nat);
        }
        let l = pot_below_of(n as u64) as usize;
        let mut left_pairs: Vec<u8> = Vec::new();
        let left = compute_subtree(data, start, l, false, &mut left_pairs);
        let mut right_pairs: Vec<u8> = Vec::new();
        let right = compute_subtree(data, start + l, n - l, false, &mut right_pairs);
        push_hash(out, &left);
        push_hash(out, &right);
        out.append(&mut left_pairs);
        out.append(&mut right_pairs);
        proof {
            assert(out@ =~= old(out)@ + preorder_pairs(data@, start as nat, n as nat));
        }
        parent_hash(&left, &right, is_root)
    }
}

/// The largest power of two strictly below `n`, on machine integers.
pub fn pot_below_of(n: u64) -> (r: u64)
    requires
        2 <= n < u64::MAX,
    ensures
        r == pot_below(n as nat),
    decreases n,
{
    if n <= 2 {
        1
    } else {
        proof {
            lemma_pot_below(((n + 1) / 2) as nat);
            lemma_pot_below(n as nat);
        }
        2 * pot_below_of((n + 1) / 2)
    }
}

/// Compute a blob's outboard and root hash.
pub fn compute_outboard(data: &Vec<u8>) -> (r: (Vec<u8>, BlobHash))
    requires
        data@.len() <= u64::MAX,
    ensures
        r.0@ == outboard_bytes(data@),
        r.1@ == blob_hash(data@),
{
    let mut out: Vec<u8> = Vec::new();
    write_u64_le(&mut out, data.len() as u64);
    let nc = num_chunks_of(data.len() as u64);
    proof {
        if data@.len() > 0 {
            vstd::arithmetic::div_mod::lemma_fundamental_div_mod((data@.len() - 1) as int, 1024);
        }
    }
    let root = compute_subtree(data.as_slice(), 0, nc as usize, true, &mut out);
    (out, root)
}

} // verus!
