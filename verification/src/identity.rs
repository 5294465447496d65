//! The file-name identity codec.
//!
//! An installed bundle's provenance is persisted in nothing but its artifact
//! file name, `<name>-<tag>-v<version>.appimage`: `name` is the package name
//! with every hyphen normalized to an underscore, `tag` is either `aur` or the
//! code-host publisher (normalized the same way), and `version` is the plain
//! `major.minor.patch` text. Encoding and decoding live here, together, so the
//! writer and the reader can never drift apart.

use vstd::prelude::*;
use vstd::slice::slice_to_vec;

use crate::bytes::{
    ends_with, lower, lower_byte, split_on, strip_leading, to_lower, has_suffix, split_bytes,
    strip_leading_bytes, append_bytes, lemma_split_concat, lemma_split_no_delim,
    lemma_strip_leading_noop,
};
use crate::error::Error;

verus! {

/// The delimiter between the three file-name segments: `-`.
pub const DASH: u8 = 45;

/// The `v` that prefixes the version segment.
pub const VEE: u8 = 118;

/// The `_` that replaces hyphens when a name is normalized.
pub const UNDERSCORE: u8 = 95;

/// The bundle extension, `.appimage`, as written on disk.
pub open spec fn extension() -> Seq<u8> {
    seq![46u8, 97, 112, 112, 105, 109, 97, 103, 101]
}

/// The bundle extension as an executable value.
pub fn extension_bytes() -> (r: Vec<u8>)
    ensures
        r@ == extension(),
{
    let r: Vec<u8> = vec![46u8, 97, 112, 112, 105, 109, 97, 103, 101];
    proof {
        assert(r@ =~= extension());
    }
    r
}

/// A name or publisher segment as it may appear inside a file name: nonempty,
/// free of the delimiter, and already lower-case.
pub open spec fn seg_ok(s: Seq<u8>) -> bool {
    s.len() > 0 && forall|i: int|
        0 <= i < s.len() ==> s[i] != DASH && lower_byte(#[trigger] s[i]) == s[i]
}

/// One byte of a version segment: an ASCII digit or a dot.
pub open spec fn version_byte(c: u8) -> bool {
    (48 <= c <= 57) || c == 46
}

/// A version segment: nonempty digits and dots.
pub open spec fn version_ok(v: Seq<u8>) -> bool {
    v.len() > 0 && forall|i: int| 0 <= i < v.len() ==> version_byte(#[trigger] v[i])
}

/// The identity of one installed bundle, exactly as much as its file name
/// encodes: normalized name, origin tag (`aur` or a publisher), and the plain
/// version text.
#[derive(Debug)]
pub struct PackageIdentity {
    pub name: Vec<u8>,
    pub tag: Vec<u8>,
    pub version: Vec<u8>,
}

impl PackageIdentity {
    /// The segments are fit for encoding: see `seg_ok` and `version_ok`.
    pub open spec fn wf(&self) -> bool {
        seg_ok(self.name@) && seg_ok(self.tag@) && version_ok(self.version@)
    }
}

/// The encoded artifact file name: `<name>-<tag>-v<version>.appimage`.
pub open spec fn encoded(name: Seq<u8>, tag: Seq<u8>, version: Seq<u8>) -> Seq<u8> {
    name + seq![DASH] + tag + seq![DASH, VEE] + version + extension()
}

/// What decoding a file name yields: lower-case the whole name, require the
/// bundle extension, split the rest at every hyphen, demand at least three
/// segments, and drop any leading `v` from the third.
pub open spec fn decoded(f: Seq<u8>) -> Option<(Seq<u8>, Seq<u8>, Seq<u8>)> {
    let low = lower(f);
    if !ends_with(low, extension()) {
        None
    } else {
        let body = low.subrange(0, low.len() - extension().len());
        let parts = split_on(body, DASH);
        if parts.len() < 3 {
            None
        } else {
            Some((parts[0], parts[1], strip_leading(parts[2], VEE)))
        }
    }
}

/// Build the artifact file name for an identity.
pub fn encode_filename(id: &PackageIdentity) -> (r: Vec<u8>)
    ensures
        r@ == encoded(id.name@, id.tag@, id.version@),
{
    let mut r: Vec<u8> = Vec::new();
    append_bytes(&mut r, id.name.as_slice());
    r.push(DASH);
    append_bytes(&mut r, id.tag.as_slice());
    r.push(DASH);
    r.push(VEE);
    append_bytes(&mut r, id.version.as_slice());
    let ext = extension_bytes();
    append_bytes(&mut r, ext.as_slice());
    proof {
        assert(r@ =~= encoded(id.name@, id.tag@, id.version@));
    }
    r
}

/// Parse an artifact file name back into an identity. A name without the
/// bundle extension or with fewer than three hyphen-separated segments is
/// corrupt state and is reported, not skipped.
pub fn decode_filename(f: &[u8]) -> (r: Result<PackageIdentity, Error>)
    ensures
        match r {
            Ok(id) => decoded(f@) == Some((id.name@, id.tag@, id.version@)),
            Err(e) => decoded(f@) is None && e == Error::ParseFailure,
        },
{
    let low = to_lower(f);
    let ext = extension_bytes();
    if !has_suffix(low.as_slice(), ext.as_slice()) {
        return Err(Error::ParseFailure);
    }
    let body_len: usize = low.len() - ext.len();
    let body = take_prefix(low.as_slice(), body_len);
    let parts = split_bytes(body.as_slice(), DASH);
    if parts.len() < 3 {
        proof {
            assert(parts.deep_view().len() == parts.len());
        }
        return Err(Error::ParseFailure);
    }
    let name = slice_to_vec(parts[0].as_slice());
    let tag = slice_to_vec(parts[1].as_slice());
    let version = strip_leading_bytes(parts[2].as_slice(), VEE);
    proof {
        assert(parts.deep_view()[0] == parts@[0]@);
        assert(parts.deep_view()[1] == parts@[1]@);
        assert(parts.deep_view()[2] == parts@[2]@);
    }
    Ok(PackageIdentity { name, tag, version })
}


/// A name as it goes to the filesystem: every hyphen becomes an underscore,
/// so the hyphen stays free to delimit the file-name segments. The map is
/// not injective; a name that already holds underscores collides, a known
/// limitation of the encoding.
pub open spec fn normalized(s: Seq<u8>) -> Seq<u8> {
    s.map_values(|c: u8| if c == DASH { UNDERSCORE } else { c })
}

/// The reverse map used when querying upstream for an installed name: every
/// underscore becomes a hyphen again.
pub open spec fn denormalized(s: Seq<u8>) -> Seq<u8> {
    s.map_values(|c: u8| if c == UNDERSCORE { DASH } else { c })
}

/// Normalize a name for the filesystem.
pub fn normalize_name(s: &[u8]) -> (r: Vec<u8>)
    ensures
        r@ == normalized(s@),
{
    let mut r: Vec<u8> = Vec::new();
    let mut i: usize = 0;
    while i < s.len()
        invariant
            i <= s.len(),
            r@ == normalized(s@.subrange(0, i as int)),
        decreases s.len() - i,
    {
        let c = s[i];
        if c == DASH {
            r.push(UNDERSCORE);
        } else {
            r.push(c);
        }
        proof {
            assert(normalized(s@.subrange(0, i + 1)) =~= normalized(
                s@.subrange(0, i as int),
            ).push(if s@[i as int] == DASH { UNDERSCORE } else { s@[i as int] }));
        }
        i = i + 1;
    }
    proof {
        assert(s@.subrange(0, s@.len() as int) =~= s@);
    }
    r
}

/// Turn a stored name back into an upstream name.
pub fn denormalize_name(s: &[u8]) -> (r: Vec<u8>)
    ensures
        r@ == denormalized(s@),
{
    let mut r: Vec<u8> = Vec::new();
    let mut i: usize = 0;
    while i < s.len()
        invariant
            i <= s.len(),
            r@ == denormalized(s@.subrange(0, i as int)),
        decreases s.len() - i,
    {
        let c = s[i];
        if c == UNDERSCORE {
            r.push(DASH);
        } else {
            r.push(c);
        }
        proof {
            assert(denormalized(s@.subrange(0, i + 1)) =~= denormalized(
                s@.subrange(0, i as int),
            ).push(if s@[i as int] == UNDERSCORE { DASH } else { s@[i as int] }));
        }
        i = i + 1;
    }
    proof {
        assert(s@.subrange(0, s@.len() as int) =~= s@);
    }
    r
}

/// A normalized name is free of the delimiter.
pub proof fn lemma_normalized_no_dash(s: Seq<u8>)
    ensures
        forall|i: int| 0 <= i < normalized(s).len() ==> normalized(s)[i] != DASH,
{
}

/// Copy the first `n` bytes.
fn take_prefix(s: &[u8], n: usize) -> (r: Vec<u8>)
    requires
        n <= s@.len(),
    ensures
        r@ == s@.subrange(0, n as int),
{
    let mut r: Vec<u8> = Vec::new();
    let mut i: usize = 0;
    while i < n
        invariant
            i <= n <= s@.len(),
            r@ == s@.subrange(0, i as int),
        decreases n - i,
    {
        r.push(s[i]);
        proof {
            assert(s@.subrange(0, i + 1) =~= s@.subrange(0, i as int).push(s@[i as int]));
        }
        i = i + 1;
    }
    r
}

/// A sequence whose bytes are all lower-case already is fixed by `lower`.
proof fn lemma_lower_fixed(s: Seq<u8>)
    requires
        forall|i: int| 0 <= i < s.len() ==> lower_byte(#[trigger] s[i]) == s[i],
    ensures
        lower(s) == s,
{
    assert(lower(s) =~= s);
}

/// Round trip: a well-formed identity, encoded and decoded, comes back
/// exactly, so re-encoding what the index read reproduces the byte-identical
/// file name.
pub proof fn lemma_filename_roundtrip(name: Seq<u8>, tag: Seq<u8>, version: Seq<u8>)
    requires
        seg_ok(name),
        seg_ok(tag),
        version_ok(version),
    ensures
        decoded(encoded(name, tag, version)) == Some((name, tag, version)),
{
    let f = encoded(name, tag, version);
    let ext = extension();
    assert forall|i: int| 0 <= i < f.len() implies lower_byte(#[trigger] f[i]) == f[i] by {
        let a = name + seq![DASH] + tag + seq![DASH, VEE] + version;
        assert(f =~= a + ext);
        if i < a.len() {
        } else {
            assert(f[i] == ext[i - a.len()]);
        }
    }
    lemma_lower_fixed(f);
    assert(ends_with(f, ext)) by {
        assert(f.subrange(f.len() - ext.len(), f.len() as int) =~= ext);
    }
    let body = f.subrange(0, f.len() - ext.len());
    assert(body =~= name + seq![DASH] + (tag + seq![DASH] + (seq![VEE] + version)));
    let tail = seq![VEE] + version;
    lemma_split_no_delim(tail, DASH);
    lemma_split_concat(tag, tail, DASH);
    lemma_split_concat(name, tag + seq![DASH] + tail, DASH);
    let parts = split_on(body, DASH);
    assert(parts =~~= seq![name, tag, tail]);
    assert(strip_leading(parts[2], VEE) == version) by {
        assert(tail.skip(1) =~= version);
        lemma_strip_leading_noop(version, VEE);
    }
}

} // verus!
