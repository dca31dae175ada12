//! Named tags and temporary pins: the roots of garbage collection.

use vstd::prelude::*;

use crate::hash::{BlobFormat, BlobHash, HashAndFormat};

verus! {

/// The longest name a tag may carry, in bytes.
pub const MAX_TAG_LEN: usize = 1024;

/// A user-assigned name for one `HashAndFormat`. A name is modelled as a raw
/// byte string, non-empty and at most `MAX_TAG_LEN` bytes long; callers that
/// want readable names put UTF-8 in it, and the names this library allocates
/// itself are ASCII, but the store orders and compares names bytewise and
/// never decodes them.
#[derive(Debug)]
pub struct Tag {
    /// The name.
    pub name: Vec<u8>,
}

impl View for Tag {
    type V = Seq<u8>;

    open spec fn view(&self) -> Seq<u8> {
        self.name@
    }
}

impl Tag {
    /// A tag with the given name.
    pub fn new(name: Vec<u8>) -> (r: Tag)
        ensures
            r@ == name@,
    {
        Tag { name }
    }

    /// An independent copy of the tag.
    pub fn duplicate(&self) -> (r: Tag)
        ensures
            r@ == self@,
    {
        Tag { name: crate::tags::clone_bytes(&self.name) }
    }
}

impl PartialEq for Tag {
    fn eq(&self, other: &Tag) -> (r: bool) {
        let r = self.name == other.name;
        proof {
            if r {
                assert(self.name@ =~= other.name@);
            }
        }
        r
    }
}

impl Eq for Tag {

}

impl vstd::std_specs::cmp::PartialEqSpecImpl for Tag {
    open spec fn obeys_eq_spec() -> bool {
        true
    }

    open spec fn eq_spec(&self, other: &Tag) -> bool {
        self@ == other@
    }
}

/// An independent copy of a byte string.
pub fn clone_bytes(v: &Vec<u8>) -> (r: Vec<u8>)
    ensures
        r@ == v@,
{
    let mut out: Vec<u8> = Vec::new();
    let mut i: usize = 0;
    while i < v.len()
        invariant
            i <= v@.len(),
            out@ == v@.subrange(0, i as int),
        decreases v@.len() - i,
    {
        out.push(v[i]);
        proof {
            assert(out@ =~= v@.subrange(0, i + 1));
        }
        i += 1;
    }
    proof {
        assert(v@.subrange(0, v@.len() as int) =~= v@);
    }
    out
}

/// A temporary pin on one `HashAndFormat`.
///
/// While at least one temp tag for a target is held, the target counts as a
/// root for garbage collection. The handle is released by giving it back to
/// the store; the store keeps one pin per outstanding handle.
#[derive(Debug)]
pub struct TempTag {
    /// The pinned hash and format.
    pub target: HashAndFormat,
}

impl TempTag {
    /// The pinned hash.
    pub fn hash(&self) -> (r: &BlobHash)
        ensures
            r@ == self.target.hash@,
    {
        &self.target.hash
    }

    /// The pinned format.
    pub fn format(&self) -> (r: BlobFormat)
        ensures
            r == self.target.format,
    {
        self.target.format
    }

    /// The pinned hash and format.
    pub fn hash_and_format(&self) -> (r: &HashAndFormat)
        ensures
            r@ == self.target@,
    {
        &self.target
    }
}

} // verus!
