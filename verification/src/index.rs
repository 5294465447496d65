//! The installed-bundle index.
//!
//! There is no metadata store: the index is re-derived on every run by
//! scanning the installation root. The caller walks the directories and hands
//! in one entry per file found (directory name, file name); everything that
//! gives the scan its meaning — decoding each file name into an identity,
//! rejecting corrupt names, ordering the result by package name — happens
//! here.

use vstd::prelude::*;
use vstd::seq_lib::to_multiset_insert;
use vstd::slice::slice_to_vec;

use crate::error::Error;
use crate::bytes::{contains_bytes, contains_seq};
use crate::identity::{decoded, PackageIdentity};
use crate::version::{lex_lt, lex_lt_bytes, lemma_lex_lt_irrefl, lemma_lex_lt_trans};

verus! {

/// One file seen while scanning the installation root: the package
/// subdirectory it sits in and its own name.
pub struct ScanEntry {
    pub directory: Vec<u8>,
    pub file: Vec<u8>,
}

/// One installed bundle, rebuilt from its path alone.
pub struct InstalledBundle {
    pub identity: PackageIdentity,
    pub directory: Vec<u8>,
    pub artifact: Vec<u8>,
}

/// The mathematical image of an `InstalledBundle`.
pub ghost struct BundleView {
    pub name: Seq<u8>,
    pub tag: Seq<u8>,
    pub version: Seq<u8>,
    pub directory: Seq<u8>,
    pub artifact: Seq<u8>,
}

impl View for InstalledBundle {
    type V = BundleView;

    open spec fn view(&self) -> BundleView {
        BundleView {
            name: self.identity.name@,
            tag: self.identity.tag@,
            version: self.identity.version@,
            directory: self.directory@,
            artifact: self.artifact@,
        }
    }
}

/// What one scan entry decodes to, when its file name is well formed.
pub open spec fn decode_entry(directory: Seq<u8>, file: Seq<u8>) -> Option<BundleView> {
    match decoded(file) {
        Some((name, tag, version)) => Some(
            BundleView { name, tag, version, directory, artifact: file },
        ),
        None => None,
    }
}

/// The views of a bundle sequence.
pub open spec fn bundle_views(s: Seq<InstalledBundle>) -> Seq<BundleView> {
    s.map_values(|b: InstalledBundle| b@)
}

/// Ordered by package name, in ASCII order.
pub open spec fn sorted_by_name(s: Seq<BundleView>) -> bool {
    forall|i: int, j: int| 0 <= i < j < s.len() ==> !lex_lt(#[trigger] s[j].name, #[trigger] s[i].name)
}

/// Decode one scanned file into an installed bundle. A file name that does
/// not follow the encoding is corrupt state and is reported.
pub fn parse_artifact(directory: &[u8], file: &[u8]) -> (r: Result<InstalledBundle, Error>)
    ensures
        match r {
            Ok(b) => decode_entry(directory@, file@) == Some(b@),
            Err(e) => decode_entry(directory@, file@) is None && e == Error::ParseFailure,
        },
{
    let identity = match crate::identity::decode_filename(file) {
        Ok(id) => id,
        Err(e) => {
            return Err(e);
        },
    };
    let b = InstalledBundle {
        identity,
        directory: slice_to_vec(directory),
        artifact: slice_to_vec(file),
    };
    Ok(b)
}

/// Insert a bundle into a name-ordered sequence, keeping the order.
fn insert_sorted(out: &mut Vec<InstalledBundle>, b: InstalledBundle)
    requires
        sorted_by_name(bundle_views(old(out)@)),
    ensures
        sorted_by_name(bundle_views(final(out)@)),
        bundle_views(final(out)@).to_multiset() == bundle_views(old(out)@).to_multiset().insert(
            b@,
        ),
{
    let ghost bv = b@;
    let mut j: usize = 0;
    let mut found = false;
    while !found && j < out.len()
        invariant
            j <= out.len(),
            b@ == bv,
            out@ == old(out)@,
            found ==> j < out@.len() && lex_lt(bv.name, bundle_views(out@)[j as int].name),
            forall|k: int| 0 <= k < j ==> !lex_lt(bv.name, bundle_views(out@)[k].name),
        decreases out.len() - j + if found { 0int } else { 1int },
    {
        proof {
            assert(bundle_views(out@)[j as int] == out@[j as int]@);
        }
        if lex_lt_bytes(b.identity.name.as_slice(), out[j].identity.name.as_slice()) {
            found = true;
        } else {
            j = j + 1;
        }
    }
    let ghost old_views = bundle_views(out@);
    out.insert(j, b);
    proof {
        assert(bundle_views(out@) =~= old_views.insert(j as int, bv));
        to_multiset_insert(old_views, j as int, bv);
        let nv = bundle_views(out@);
        assert forall|i1: int, i2: int| 0 <= i1 < i2 < nv.len() implies !lex_lt(
            nv[i2].name,
            nv[i1].name,
        ) by {
            if i2 < j {
            } else if i1 < j && i2 == j {
                assert(nv[i1] == old_views[i1]);
            } else if i1 == j {
                assert(nv[i2] == old_views[i2 - 1]);
                assert(j < old_views.len());
                if lex_lt(old_views[i2 - 1].name, bv.name) {
                    assert(found);
                    assert(lex_lt(bv.name, old_views[j as int].name));
                    lemma_lex_lt_trans(old_views[i2 - 1].name, bv.name, old_views[j as int].name);
                    if i2 - 1 == j {
                        lemma_lex_lt_irrefl(old_views[j as int].name);
                    }
                    assert(false);
                }
            } else if i1 < j {
                assert(nv[i1] == old_views[i1]);
                assert(nv[i2] == old_views[i2 - 1]);
            } else {
                assert(nv[i1] == old_views[i1 - 1]);
                assert(nv[i2] == old_views[i2 - 1]);
            }
        }
    }
}

/// Rebuild the installed-bundle index from a scan of the installation root:
/// decode every file, reject the scan on the first corrupt name, and order
/// the result by package name. The index holds exactly the decoded entries,
/// nothing more.
pub fn build_index(entries: &Vec<ScanEntry>) -> (r: Result<Vec<InstalledBundle>, Error>)
    ensures
        match r {
            Ok(idx) => {
                &&& forall|i: int|
                    0 <= i < entries@.len() ==> decode_entry(
                        entries@[i].directory@,
                        #[trigger] entries@[i].file@,
                    ) is Some
                &&& bundle_views(idx@).to_multiset() == Seq::new(
                    entries@.len(),
                    |i: int| decode_entry(entries@[i].directory@, entries@[i].file@)->Some_0,
                ).to_multiset()
                &&& sorted_by_name(bundle_views(idx@))
            },
            Err(e) => {
                &&& e == Error::ParseFailure
                &&& exists|i: int|
                    0 <= i < entries@.len() && decode_entry(
                        entries@[i].directory@,
                        #[trigger] entries@[i].file@,
                    ) is None
            },
        },
{
    let ghost decoded_all = Seq::new(
        entries@.len(),
        |i: int| decode_entry(entries@[i].directory@, entries@[i].file@)->Some_0,
    );
    let mut out: Vec<InstalledBundle> = Vec::new();
    let mut i: usize = 0;
    proof {
        broadcast use vstd::seq_lib::group_to_multiset_ensures;

        assert(bundle_views(out@) =~= Seq::<BundleView>::empty());
        assert(decoded_all.subrange(0, 0) =~= Seq::<BundleView>::empty());
    }
    while i < entries.len()
        invariant
            i <= entries@.len(),
            decoded_all == Seq::new(
                entries@.len(),
                |k: int| decode_entry(entries@[k].directory@, entries@[k].file@)->Some_0,
            ),
            forall|k: int|
                0 <= k < i ==> decode_entry(
                    entries@[k].directory@,
                    #[trigger] entries@[k].file@,
                ) is Some,
            sorted_by_name(bundle_views(out@)),
            bundle_views(out@).to_multiset() == decoded_all.subrange(0, i as int).to_multiset(),
        decreases entries@.len() - i,
    {
        let entry = &entries[i];
        let b = match parse_artifact(entry.directory.as_slice(), entry.file.as_slice()) {
            Ok(b) => b,
            Err(e) => {
                return Err(e);
            },
        };
        proof {
            assert(decoded_all[i as int] == b@);
        }
        insert_sorted(&mut out, b);
        proof {
            assert(decoded_all.subrange(0, i + 1) =~= decoded_all.subrange(0, i as int).push(
                decoded_all[i as int],
            ));
            vstd::seq_lib::to_multiset_build(decoded_all.subrange(0, i as int), decoded_all[i as int]);
        }
        i = i + 1;
    }
    proof {
        assert(decoded_all.subrange(0, entries@.len() as int) =~= decoded_all);
    }
    Ok(out)
}


/// The first name that holds `needle` as a substring, in order.
pub open spec fn first_containing(s: Seq<Seq<u8>>, needle: Seq<u8>) -> Option<Seq<u8>>
    decreases s.len(),
{
    if s.len() == 0 {
        None
    } else if contains_seq(s[0], needle) {
        Some(s[0])
    } else {
        first_containing(s.skip(1), needle)
    }
}

/// Find the installed desktop entry that belongs to a deleted package: the
/// first file whose name holds the package's name.
pub fn find_matching_desktop(files: &Vec<Vec<u8>>, needle: &[u8]) -> (r: Option<Vec<u8>>)
    ensures
        match r {
            Some(name) => first_containing(files.deep_view(), needle@) == Some(name@),
            None => first_containing(files.deep_view(), needle@) is None,
        },
{
    let ghost all = files.deep_view();
    let mut i: usize = 0;
    proof {
        assert(all.skip(0) =~= all);
    }
    while i < files.len()
        invariant
            i <= files@.len(),
            all == files.deep_view(),
            all.len() == files@.len(),
            first_containing(all, needle@) == first_containing(all.skip(i as int), needle@),
        decreases files@.len() - i,
    {
        proof {
            assert(all.skip(i as int)[0] == all[i as int]);
            assert(all[i as int] == files@[i as int]@);
            assert(all.skip(i as int).skip(1) =~= all.skip(i + 1));
        }
        if contains_bytes(files[i].as_slice(), needle) {
            return Some(slice_to_vec(files[i].as_slice()));
        }
        i = i + 1;
    }
    None
}

/// Names in ascending ASCII order.
pub open spec fn names_sorted(s: Seq<Seq<u8>>) -> bool {
    forall|i: int, j: int| 0 <= i < j < s.len() ==> !lex_lt(#[trigger] s[j], #[trigger] s[i])
}

/// Insert a name into an ordered sequence, keeping the order.
fn insert_name_sorted(out: &mut Vec<Vec<u8>>, x: Vec<u8>)
    requires
        names_sorted(old(out).deep_view()),
    ensures
        names_sorted(final(out).deep_view()),
        final(out).deep_view().to_multiset() == old(out).deep_view().to_multiset().insert(x@),
{
    let ghost xv = x@;
    let mut j: usize = 0;
    let mut found = false;
    while !found && j < out.len()
        invariant
            j <= out.len(),
            x@ == xv,
            out@ == old(out)@,
            found ==> j < out@.len() && lex_lt(xv, out.deep_view()[j as int]),
            forall|k: int| 0 <= k < j ==> !lex_lt(xv, out.deep_view()[k]),
        decreases out.len() - j + if found { 0int } else { 1int },
    {
        proof {
            assert(out.deep_view()[j as int] == out@[j as int]@);
        }
        if lex_lt_bytes(x.as_slice(), out[j].as_slice()) {
            found = true;
        } else {
            j = j + 1;
        }
    }
    let ghost old_views = out.deep_view();
    out.insert(j, x);
    proof {
        assert(out.deep_view() =~~= old_views.insert(j as int, xv));
        to_multiset_insert(old_views, j as int, xv);
        let nv = out.deep_view();
        assert forall|i1: int, i2: int| 0 <= i1 < i2 < nv.len() implies !lex_lt(
            nv[i2],
            nv[i1],
        ) by {
            if i2 < j {
            } else if i1 < j && i2 == j {
                assert(nv[i1] == old_views[i1]);
            } else if i1 == j {
                assert(nv[i2] == old_views[i2 - 1]);
                assert(j < old_views.len());
                if lex_lt(old_views[i2 - 1], xv) {
                    assert(found);
                    assert(lex_lt(xv, old_views[j as int]));
                    lemma_lex_lt_trans(old_views[i2 - 1], xv, old_views[j as int]);
                    if i2 - 1 == j {
                        lemma_lex_lt_irrefl(old_views[j as int]);
                    }
                    assert(false);
                }
            } else if i1 < j {
                assert(nv[i1] == old_views[i1]);
                assert(nv[i2] == old_views[i2 - 1]);
            } else {
                assert(nv[i1] == old_views[i1 - 1]);
                assert(nv[i2] == old_views[i2 - 1]);
            }
        }
    }
}

/// Order the installed names for presentation: ascending, holding exactly
/// the given names.
pub fn sort_names(v: Vec<Vec<u8>>) -> (r: Vec<Vec<u8>>)
    ensures
        names_sorted(r.deep_view()),
        r.deep_view().to_multiset() == v.deep_view().to_multiset(),
{
    let mut v = v;
    let ghost orig = v.deep_view();
    let mut out: Vec<Vec<u8>> = Vec::new();
    proof {
        broadcast use vstd::seq_lib::group_to_multiset_ensures;

        assert(out.deep_view() =~= Seq::<Seq<u8>>::empty());
    }
    while v.len() > 0
        invariant
            names_sorted(out.deep_view()),
            out.deep_view().to_multiset().add(v.deep_view().to_multiset()) == orig.to_multiset(),
        decreases v.len(),
    {
        let ghost before = v.deep_view();
        let x = v.pop().unwrap();
        proof {
            assert(before.drop_last() =~~= v.deep_view());
            assert(before =~~= v.deep_view().push(x@));
            vstd::seq_lib::to_multiset_build(v.deep_view(), x@);
        }
        insert_name_sorted(&mut out, x);
        proof {
            broadcast use vstd::multiset::group_multiset_axioms;

            assert(out.deep_view().to_multiset().add(v.deep_view().to_multiset())
                =~= orig.to_multiset());
        }
    }
    proof {
        broadcast use vstd::multiset::group_multiset_axioms;
        broadcast use vstd::seq_lib::group_to_multiset_ensures;

        assert(v.deep_view() =~= Seq::<Seq<u8>>::empty());
        assert(out.deep_view().to_multiset() =~= orig.to_multiset());
    }
    out
}

} // verus!
