//! Fetch planning: where a new bundle goes, and when nothing must be done.
//!
//! Every install decides its whole filesystem footprint up front: the
//! package directory (the normalized name) and the artifact file name that
//! encodes the identity. When the package directory already exists the
//! package counts as installed, the fetch is skipped entirely — before any
//! network request — and that is a success, not an error.

use vstd::prelude::*;

use crate::bytes::lower;
use crate::identity::{encoded, normalized, PackageIdentity};
use crate::version::{rendered, SemanticVersion};

verus! {

/// The community-index origin tag, as it goes into a file name.
pub open spec fn aur_tag() -> Seq<u8> {
    seq![97u8, 117, 114]
}

/// The community-index origin tag as an executable value.
pub fn aur_tag_bytes() -> (r: Vec<u8>)
    ensures
        r@ == aur_tag(),
{
    let r: Vec<u8> = vec![97u8, 117, 114];
    proof {
        assert(r@ =~= aur_tag());
    }
    r
}

/// Which upstream an installed bundle came from.
#[derive(Clone, Copy, Debug, PartialEq, Eq, Structural)]
pub enum SourceKind {
    CommunityIndex,
    CodeHost,
}

/// Read the origin out of a decoded tag: the community-index tag is `aur`,
/// anything else names a code-host publisher.
pub fn source_of_tag(tag: &[u8]) -> (r: SourceKind)
    ensures
        r == SourceKind::CommunityIndex <==> tag@ == aur_tag(),
{
    let aur = aur_tag_bytes();
    if crate::bytes::bytes_eq(tag, aur.as_slice()) {
        SourceKind::CommunityIndex
    } else {
        SourceKind::CodeHost
    }
}

/// The identity of a fresh community-index install: the name lower-cased
/// and normalized (so the written file name reads back identically), the
/// `aur` tag, and the canonical text of the resolved version.
pub fn identity_for_community(upstream_name: &[u8], version: &SemanticVersion) -> (r:
    PackageIdentity)
    ensures
        r.name@ == lower(normalized(upstream_name@)),
        r.tag@ == aur_tag(),
        r.version@ == rendered(version@),
{
    let plain = crate::identity::normalize_name(upstream_name);
    PackageIdentity {
        name: crate::bytes::to_lower(plain.as_slice()),
        tag: aur_tag_bytes(),
        version: version.text(),
    }
}

/// The identity of a fresh code-host install: repository and publisher
/// lower-cased and normalized, and the plain version text read from the
/// release tag.
pub fn identity_for_codehost(repo: &[u8], owner: &[u8], version_text: &[u8]) -> (r:
    PackageIdentity)
    ensures
        r.name@ == lower(normalized(repo@)),
        r.tag@ == lower(normalized(owner@)),
        r.version@ == version_text@,
{
    let plain_repo = crate::identity::normalize_name(repo);
    let plain_owner = crate::identity::normalize_name(owner);
    PackageIdentity {
        name: crate::bytes::to_lower(plain_repo.as_slice()),
        tag: crate::bytes::to_lower(plain_owner.as_slice()),
        version: vstd::slice::slice_to_vec(version_text),
    }
}

/// What a fetch will do.
pub enum FetchPlan {
    /// The package directory already exists: already installed, nothing to
    /// fetch, no network request to make.
    AlreadyInstalled,
    /// Fetch into the given package directory, under the given artifact
    /// file name.
    Download { directory: Vec<u8>, artifact: Vec<u8> },
}

/// Plan a fetch: skip it entirely when the package directory already
/// exists, otherwise settle the directory (the normalized name) and the
/// artifact file name that encodes the identity.
pub fn plan_fetch(id: &PackageIdentity, directory_exists: bool) -> (r: FetchPlan)
    ensures
        match r {
            FetchPlan::AlreadyInstalled => directory_exists,
            FetchPlan::Download { directory, artifact } => !directory_exists && directory@
                == id.name@ && artifact@ == encoded(id.name@, id.tag@, id.version@),
        },
{
    if directory_exists {
        return FetchPlan::AlreadyInstalled;
    }
    FetchPlan::Download {
        directory: vstd::slice::slice_to_vec(id.name.as_slice()),
        artifact: crate::identity::encode_filename(id),
    }
}

} // verus!
