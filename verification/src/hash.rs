//! Hashes, blob formats and the pairs of both that tags point at.

use vstd::prelude::*;

verus! {

/// A 32-byte content identifier. Equality is bytewise.
#[derive(Clone, Copy, Debug)]
pub struct BlobHash {
    /// The raw bytes.
    pub bytes: [u8; 32],
}

impl View for BlobHash {
    type V = Seq<u8>;

    open spec fn view(&self) -> Seq<u8> {
        self.bytes@
    }
}

impl BlobHash {
    /// Wrap 32 raw bytes as a hash.
    pub fn from_bytes(bytes: [u8; 32]) -> (r: BlobHash)
        ensures
            r@ == bytes@,
    {
        BlobHash { bytes }
    }

    /// The raw bytes of the hash.
    pub fn as_bytes(&self) -> (r: &[u8; 32])
        ensures
            r@ == self@,
    {
        &self.bytes
    }
}

impl PartialEq for BlobHash {
    fn eq(&self, other: &BlobHash) -> (r: bool) {
        let mut i: usize = 0;
        while i < 32
            invariant
                i <= 32,
                forall|j: int| 0 <= j < i ==> self.bytes@[j] == other.bytes@[j],
            decreases 32 - i,
        {
            if self.bytes[i] != other.bytes[i] {
                return false;
            }
            i += 1;
        }
        proof {
            assert(self.bytes@ =~= other.bytes@);
        }
        true
    }
}

impl Eq for BlobHash {

}

impl vstd::std_specs::cmp::PartialEqSpecImpl for BlobHash {
    open spec fn obeys_eq_spec() -> bool {
        true
    }

    open spec fn eq_spec(&self, other: &BlobHash) -> bool {
        self@ == other@
    }
}

/// How the bytes of a blob are to be interpreted.
#[derive(Clone, Copy, Debug, PartialEq, Eq, Structural)]
pub enum BlobFormat {
    /// Opaque bytes.
    Raw,
    /// The bytes decode as a count followed by that many 32-byte child
    /// hashes.
    HashSeq,
}

impl BlobFormat {
    /// True if the blob is opaque bytes.
    pub fn is_raw(&self) -> (r: bool)
        ensures
            r == (*self == BlobFormat::Raw),
    {
        matches!(self, BlobFormat::Raw)
    }
}

/// A hash together with the format of the blob it names.
#[derive(Clone, Copy, Debug)]
pub struct HashAndFormat {
    /// The hash.
    pub hash: BlobHash,
    /// The format.
    pub format: BlobFormat,
}

impl View for HashAndFormat {
    type V = (Seq<u8>, BlobFormat);

    open spec fn view(&self) -> (Seq<u8>, BlobFormat) {
        (self.hash@, self.format)
    }
}

impl PartialEq for HashAndFormat {
    fn eq(&self, other: &HashAndFormat) -> (r: bool) {
        self.hash == other.hash && self.format == other.format
    }
}

impl Eq for HashAndFormat {

}

impl vstd::std_specs::cmp::PartialEqSpecImpl for HashAndFormat {
    open spec fn obeys_eq_spec() -> bool {
        true
    }

    open spec fn eq_spec(&self, other: &HashAndFormat) -> bool {
        self@ == other@
    }
}

} // verus!
