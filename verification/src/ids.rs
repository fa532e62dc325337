//! Canonical artifact identifiers.
//!
//! Every node of the graph is named by a fixed-form identifier: a namespace
//! version, a node kind, and a 20-byte digest.  The identifier of an origin
//! node is fully determined by the origin's URL: version `1`, kind
//! [`NodeKind::Origin`], and the SHA-1 of the URL's bytes.

use vstd::prelude::*;

use sha1::{Digest, Sha1};

verus! {

/// The kind of artifact a node stands for.
#[derive(Clone, Copy, Debug, PartialEq, Eq, Structural)]
pub enum NodeKind {
    /// A source location that roots a set of archived artifacts.
    Origin,
    /// A snapshot of the branches of an origin.
    Snapshot,
    /// A revision (commit).
    Revision,
    /// A release (tag).
    Release,
    /// A directory.
    Directory,
    /// A file's contents.
    Content,
}

/// The mathematical form of a [`CanonicalId`].
pub struct IdView {
    /// Namespace version.
    pub version: u8,
    /// Node kind tag.
    pub kind: NodeKind,
    /// The 20-byte digest.
    pub digest: Seq<u8>,
}

/// A canonical identifier: namespace version, node kind, 20-byte digest.
pub struct CanonicalId {
    /// Namespace version.
    pub version: u8,
    /// Node kind tag.
    pub kind: NodeKind,
    /// The digest naming the artifact, 20 bytes.
    pub digest: [u8; 20],
}

impl View for CanonicalId {
    type V = IdView;

    open spec fn view(&self) -> IdView {
        IdView { version: self.version, kind: self.kind, digest: self.digest@ }
    }
}

/// The SHA-1 digest of a byte string; the digest depends on the bytes alone.
pub uninterp spec fn sha1_of(data: Seq<u8>) -> Seq<u8>;

/// Relies on the `sha1` crate's `Sha1` hasher (through `Digest::digest`):
/// the 20-byte SHA-1 digest of `data`, a function of `data` alone.
#[verifier::external_body]
fn sha1_digest(data: &Vec<u8>) -> (r: [u8; 20])
    ensures
        r@ == sha1_of(data@),
{
    Sha1::digest(data.as_slice()).into()
}

/// The identifier of the origin node named by `url`.
pub open spec fn origin_id(url: Seq<u8>) -> IdView {
    IdView { version: 1u8, kind: NodeKind::Origin, digest: sha1_of(url) }
}

impl CanonicalId {
    /// Builds the canonical identifier of the origin with URL `url`:
    /// version `1`, kind `Origin`, digest the SHA-1 of the URL's bytes.
    pub fn from_origin_url(url: &Vec<u8>) -> (r: CanonicalId)
        ensures
            r@ == origin_id(url@),
            r.version == 1u8,
            r.kind == NodeKind::Origin,
            r.digest@ == sha1_of(url@),
    {
        let r = CanonicalId { version: 1, kind: NodeKind::Origin, digest: sha1_digest(url) };
        r
    }

    /// Reports whether two identifiers name the same artifact.
    pub fn same_id(&self, other: &CanonicalId) -> (r: bool)
        ensures
            r == (self@ == other@),
    {
        if self.version != other.version {
            return false;
        }
        if !(self.kind == other.kind) {
            return false;
        }
        let mut k: usize = 0;
        while k < 20
            invariant
                0 <= k <= 20,
                forall|j: int| 0 <= j < k ==> self.digest@[j] == other.digest@[j],
            decreases 20 - k,
        {
            if self.digest[k] != other.digest[k] {
                return false;
            }
            k += 1;
        }
        proof {
            assert(self.digest@ =~= other.digest@);
        }
        true
    }
}

} // verus!
