//! Code-host releases: reading a version out of a release tag and choosing
//! the bundle artifact among the release's assets.
//!
//! The response shapes mirror the fields the engine consumes from the code
//! host's JSON: a search response carries `total_count` and `items`, a
//! release carries `tag_name` and `assets`. Zero qualifying assets is an
//! error, exactly one is used directly, and more than one is handed back so
//! the caller can let the user choose.

use vstd::prelude::*;
use vstd::slice::slice_to_vec;

use crate::bytes::{ends_with, lower};
use crate::error::Error;
use crate::identity::extension;
use crate::version::{semver_parse, tag_stripped, SemanticVersion};

verus! {

/// A code-host API response; every field the engine reads, each optional
/// exactly as in the JSON.
pub struct GITHUB {
    pub total_count: Option<u32>,
    pub items: Option<Vec<Items>>,
    pub url: Option<Vec<u8>>,
    pub tag_name: Option<Vec<u8>>,
    pub assets: Option<Vec<Assets>>,
}

/// One repository in a search response.
pub struct Items {
    pub full_name: Option<Vec<u8>>,
    pub description: Option<Vec<u8>>,
}

/// One release asset.
pub struct Assets {
    pub name: Option<Vec<u8>>,
    pub browser_download_url: Option<Vec<u8>>,
}

/// The view of an optional byte string.
pub open spec fn opt_view(o: Option<Vec<u8>>) -> Option<Seq<u8>> {
    match o {
        Some(v) => Some(v@),
        None => None,
    }
}

/// The mathematical image of an `Assets`.
pub ghost struct AssetView {
    pub name: Option<Seq<u8>>,
    pub browser_download_url: Option<Seq<u8>>,
}

impl View for Assets {
    type V = AssetView;

    open spec fn view(&self) -> AssetView {
        AssetView {
            name: opt_view(self.name),
            browser_download_url: opt_view(self.browser_download_url),
        }
    }
}

/// The mathematical image of an `Items`.
pub ghost struct ItemsView {
    pub full_name: Option<Seq<u8>>,
    pub description: Option<Seq<u8>>,
}

impl View for Items {
    type V = ItemsView;

    open spec fn view(&self) -> ItemsView {
        ItemsView { full_name: opt_view(self.full_name), description: opt_view(self.description) }
    }
}

/// The views of an asset sequence.
pub open spec fn asset_views(s: Seq<Assets>) -> Seq<AssetView> {
    s.map_values(|a: Assets| a@)
}

/// The views of an items sequence.
pub open spec fn items_views(s: Seq<Items>) -> Seq<ItemsView> {
    s.map_values(|x: Items| x@)
}

/// An asset that ships the bundle: it has a name and the name ends in the
/// bundle extension, compared case-insensitively.
pub open spec fn is_bundle_asset(a: AssetView) -> bool {
    a.name is Some && ends_with(lower(a.name->0), extension())
}

/// The filter that keeps bundle assets.
pub open spec fn bundle_asset_filter() -> spec_fn(AssetView) -> bool {
    |a: AssetView| is_bundle_asset(a)
}

/// A search item that can be presented: both its name and its description
/// are there.
pub open spec fn is_complete_item(x: ItemsView) -> bool {
    x.full_name is Some && x.description is Some
}

/// The filter that keeps presentable search items.
pub open spec fn complete_item_filter() -> spec_fn(ItemsView) -> bool {
    |x: ItemsView| is_complete_item(x)
}

fn clone_opt_bytes(o: &Option<Vec<u8>>) -> (r: Option<Vec<u8>>)
    ensures
        opt_view(r) == opt_view(*o),
{
    match o {
        Some(v) => Some(slice_to_vec(v.as_slice())),
        None => None,
    }
}

fn clone_asset(a: &Assets) -> (r: Assets)
    ensures
        r@ == a@,
{
    Assets {
        name: clone_opt_bytes(&a.name),
        browser_download_url: clone_opt_bytes(&a.browser_download_url),
    }
}

fn clone_item(x: &Items) -> (r: Items)
    ensures
        r@ == x@,
{
    Items {
        full_name: clone_opt_bytes(&x.full_name),
        description: clone_opt_bytes(&x.description),
    }
}

/// Does this asset ship the bundle?
fn asset_qualifies(a: &Assets) -> (r: bool)
    ensures
        r == is_bundle_asset(a@),
{
    match &a.name {
        Some(name) => {
            let low = crate::bytes::to_lower(name.as_slice());
            let ext = crate::identity::extension_bytes();
            crate::bytes::has_suffix(low.as_slice(), ext.as_slice())
        },
        None => false,
    }
}

/// The release's bundle assets, in order: every asset whose name ends in the
/// bundle extension. A release without an asset list has none.
pub fn bundle_assets(g: &GITHUB) -> (r: Vec<Assets>)
    ensures
        asset_views(r@) == match g.assets {
            Some(assets) => asset_views(assets@).filter(bundle_asset_filter()),
            None => Seq::<AssetView>::empty(),
        },
{
    let mut r: Vec<Assets> = Vec::new();
    proof {
        reveal(Seq::filter);
    }
    match &g.assets {
        Some(assets) => {
            let mut i: usize = 0;
            proof {
                assert(asset_views(r@) =~= asset_views(assets@.subrange(0, 0)).filter(
                    bundle_asset_filter(),
                ));
            }
            while i < assets.len()
                invariant
                    i <= assets@.len(),
                    asset_views(r@) == asset_views(assets@.subrange(0, i as int)).filter(
                        bundle_asset_filter(),
                    ),
                decreases assets@.len() - i,
            {
                proof {
                    reveal(Seq::filter);
                    let prev = asset_views(assets@.subrange(0, i as int));
                    let next = asset_views(assets@.subrange(0, i + 1));
                    assert(next.drop_last() =~= prev);
                    assert(next.last() == assets@[i as int]@);
                }
                let ghost rv = asset_views(r@);
                if asset_qualifies(&assets[i]) {
                    let a = clone_asset(&assets[i]);
                    r.push(a);
                    proof {
                        assert(asset_views(r@) =~= rv.push(assets@[i as int]@));
                    }
                }
                i = i + 1;
            }
            proof {
                assert(assets@.subrange(0, assets@.len() as int) =~= assets@);
            }
        },
        None => {
            proof {
                assert(asset_views(r@) =~= Seq::<AssetView>::empty());
            }
        },
    }
    r
}

/// How the release's artifact is obtained.
pub enum ArtifactChoice {
    /// Exactly one bundle asset: use its download target directly.
    Single { url: Vec<u8> },
    /// Several bundle assets: the caller must present them and have one
    /// chosen.
    Multiple { candidates: Vec<Assets> },
}

/// Choose the bundle artifact among a release's assets: none is an error,
/// one is used directly, several are handed back for a user choice. A single
/// qualifying asset without a download target is an error too.
pub fn resolve_release_artifact(g: &GITHUB) -> (r: Result<ArtifactChoice, Error>)
    ensures
        ({
            let q = match g.assets {
                Some(assets) => asset_views(assets@).filter(bundle_asset_filter()),
                None => Seq::<AssetView>::empty(),
            };
            match r {
                Ok(choice) => match choice {
                    ArtifactChoice::Single { url } => q.len() == 1 && q[0].browser_download_url
                        == Some(url@),
                    ArtifactChoice::Multiple { candidates } => q.len() > 1 && asset_views(
                        candidates@,
                    ) == q,
                },
                Err(e) => e == Error::NotFound && (q.len() == 0 || (q.len() == 1
                    && q[0].browser_download_url is None)),
            }
        }),
{
    let q = bundle_assets(g);
    if q.len() == 0 {
        return Err(Error::NotFound);
    }
    if q.len() == 1 {
        proof {
            assert(asset_views(q@)[0] == q@[0]@);
        }
        match &q[0].browser_download_url {
            Some(url) => {
                return Ok(ArtifactChoice::Single { url: slice_to_vec(url.as_slice()) });
            },
            None => {
                return Err(Error::NotFound);
            },
        }
    }
    Ok(ArtifactChoice::Multiple { candidates: q })
}

/// The download target of the asset the user chose.
pub fn chosen_asset_url(candidates: &Vec<Assets>, k: usize) -> (r: Result<Vec<u8>, Error>)
    requires
        k < candidates@.len(),
    ensures
        match r {
            Ok(url) => candidates@[k as int]@.browser_download_url == Some(url@),
            Err(e) => candidates@[k as int]@.browser_download_url is None && e == Error::NotFound,
        },
{
    match &candidates[k].browser_download_url {
        Some(url) => Ok(slice_to_vec(url.as_slice())),
        None => Err(Error::NotFound),
    }
}

/// The plain version text of a release: the tag with everything but digits
/// and dots dropped. A release without a tag is malformed.
pub fn release_version_text(g: &GITHUB) -> (r: Result<Vec<u8>, Error>)
    ensures
        match r {
            Ok(v) => g.tag_name is Some && v@ == tag_stripped(g.tag_name->0@),
            Err(e) => g.tag_name is None && e == Error::ParseFailure,
        },
{
    match &g.tag_name {
        Some(tag) => Ok(crate::version::keep_version_text(tag.as_slice())),
        None => Err(Error::ParseFailure),
    }
}

/// The latest published version of a release: the tag with every byte that
/// is neither a digit nor a dot dropped, parsed as a semantic version, so a
/// tag like `release-v2.3.1` still yields `2.3.1`. A release without a tag,
/// or whose stripped tag does not parse, is malformed.
pub fn release_latest_version(g: &GITHUB) -> (r: Result<SemanticVersion, Error>)
    ensures
        match r {
            Ok(v) => g.tag_name is Some && semver_parse(tag_stripped(g.tag_name->0@)) == Some(
                v@,
            ),
            Err(e) => e == Error::ParseFailure && (g.tag_name is None || semver_parse(
                tag_stripped(g.tag_name->0@),
            ) is None),
        },
{
    match &g.tag_name {
        Some(tag) => crate::version::parse_release_tag(tag.as_slice()),
        None => Err(Error::ParseFailure),
    }
}

/// The presentable shortlist of a repository search: the items that carry
/// both a name and a description, in order, capped at five.
pub fn shortlist_repos(items: &Vec<Items>) -> (r: Vec<Items>)
    ensures
        ({
            let f = items_views(items@).filter(complete_item_filter());
            items_views(r@) == if f.len() <= 5 {
                f
            } else {
                f.take(5)
            }
        }),
{
    let mut r: Vec<Items> = Vec::new();
    let mut i: usize = 0;
    proof {
        reveal(Seq::filter);
        assert(items_views(r@) =~= items_views(items@.subrange(0, 0)).filter(
            complete_item_filter(),
        ));
    }
    while i < items.len() && r.len() < 5
        invariant
            i <= items@.len(),
            r@.len() <= 5,
            items_views(r@) == items_views(items@.subrange(0, i as int)).filter(
                complete_item_filter(),
            ),
        decreases items@.len() - i,
    {
        proof {
            reveal(Seq::filter);
            let prev = items_views(items@.subrange(0, i as int));
            let next = items_views(items@.subrange(0, i + 1));
            assert(next.drop_last() =~= prev);
            assert(next.last() == items@[i as int]@);
        }
        let ghost rv = items_views(r@);
        let x = &items[i];
        let complete = x.full_name.is_some() && x.description.is_some();
        if complete {
            let y = clone_item(x);
            r.push(y);
            proof {
                assert(items_views(r@) =~= rv.push(items@[i as int]@));
            }
        }
        i = i + 1;
    }
    proof {
        let all = items_views(items@).filter(complete_item_filter());
        let here = items_views(items@.subrange(0, i as int)).filter(complete_item_filter());
        if i < items@.len() {
            assert(r@.len() == 5);
            assert(items@.subrange(0, i as int) + items@.subrange(i as int, items@.len() as int)
                =~= items@);
            assert(items_views(items@.subrange(0, i as int)) + items_views(
                items@.subrange(i as int, items@.len() as int),
            ) =~= items_views(items@));
            Seq::filter_distributes_over_add(
                items_views(items@.subrange(0, i as int)),
                items_views(items@.subrange(i as int, items@.len() as int)),
                complete_item_filter(),
            );
            assert(all.take(5) =~= here);
        } else {
            assert(items@.subrange(0, i as int) =~= items@);
            items_views(items@).lemma_filter_len(complete_item_filter());
            if all.len() > 5 {
                assert(items_views(r@).len() == all.len());
                assert(false);
            }
        }
    }
    r
}


/// Does the release ship the bundle at all? True exactly when some asset
/// qualifies.
pub fn release_has_bundle(g: &GITHUB) -> (r: bool)
    ensures
        r == (match g.assets {
            Some(assets) => asset_views(assets@).filter(bundle_asset_filter()).len() > 0,
            None => false,
        }),
{
    let q = bundle_assets(g);
    proof {
        if g.assets is None {
            assert(asset_views(q@).len() == q@.len());
        }
    }
    q.len() > 0
}

/// A repository page address, its owner and repository read from the last
/// two path segments, trailing slashes ignored.
pub open spec fn repo_url_parts(url: Seq<u8>) -> Option<(Seq<u8>, Seq<u8>)> {
    let parts = crate::bytes::split_on(crate::bytes::strip_trailing(url, 47), 47);
    if parts.len() < 2 {
        None
    } else {
        Some((parts[parts.len() - 2], parts[parts.len() - 1]))
    }
}

/// Read owner and repository out of a repository address: the last two
/// slash-separated segments, trailing slashes dropped first. An address with
/// fewer segments is malformed.
pub fn parse_repo_url(url: &[u8]) -> (r: Result<(Vec<u8>, Vec<u8>), Error>)
    ensures
        match r {
            Ok(pair) => repo_url_parts(url@) == Some((pair.0@, pair.1@)),
            Err(e) => repo_url_parts(url@) is None && e == Error::ParseFailure,
        },
{
    let trimmed = crate::bytes::strip_trailing_bytes(url, 47);
    let parts = crate::bytes::split_bytes(trimmed.as_slice(), 47);
    if parts.len() < 2 {
        proof {
            assert(parts.deep_view().len() == parts@.len());
        }
        return Err(Error::ParseFailure);
    }
    let owner = slice_to_vec(parts[parts.len() - 2].as_slice());
    let repo = slice_to_vec(parts[parts.len() - 1].as_slice());
    proof {
        assert(parts.deep_view()[parts@.len() - 2] == parts@[parts@.len() - 2]@);
        assert(parts.deep_view()[parts@.len() - 1] == parts@[parts@.len() - 1]@);
        assert(parts.deep_view().len() == parts@.len());
    }
    Ok((owner, repo))
}


/// Keep exactly the repositories whose probe found a compatible artifact,
/// in their original relative order.
pub fn filter_repos_by_probe(v: Vec<Items>, flags: &Vec<bool>) -> (r: Vec<Items>)
    requires
        v@.len() == flags@.len(),
    ensures
        items_views(r@) == crate::search::flagged(items_views(v@), flags@),
{
    let ghost all = items_views(v@);
    let ghost fall = flags@;
    let mut v = v;
    let mut r: Vec<Items> = Vec::new();
    let mut i: usize = 0;
    let total: usize = flags.len();
    proof {
        assert(all.skip(0) =~= all);
        assert(fall.skip(0) =~= fall);
        assert(items_views(r@) + crate::search::flagged(all, fall) =~= crate::search::flagged(
            all,
            fall,
        ));
    }
    while v.len() > 0
        invariant
            fall == flags@,
            all.len() == fall.len(),
            total == all.len(),
            i <= total,
            i + v@.len() == total,
            items_views(v@) == all.skip(i as int),
            items_views(r@) + crate::search::flagged(all.skip(i as int), fall.skip(i as int))
                == crate::search::flagged(all, fall),
        decreases v.len(),
    {
        let x = v.remove(0);
        let keep = flags[i];
        proof {
            assert(items_views(v@) =~= all.skip(i as int).skip(1));
            assert(all.skip(i as int).skip(1) =~= all.skip(i + 1));
            assert(fall.skip(i as int).skip(1) =~= fall.skip(i + 1));
            assert(all.skip(i as int)[0] == x@);
            assert(fall.skip(i as int)[0] == fall[i as int]);
        }
        let ghost rv = items_views(r@);
        if keep {
            r.push(x);
            proof {
                assert(items_views(r@) =~= rv.push(x@));
                assert(rv.push(x@) + crate::search::flagged(all.skip(i + 1), fall.skip(i + 1))
                    =~= rv + (seq![x@] + crate::search::flagged(all.skip(i + 1), fall.skip(i + 1))));
            }
        }
        i = i + 1;
    }
    proof {
        assert(crate::search::flagged(all.skip(all.len() as int), fall.skip(fall.len() as int))
            =~= Seq::<ItemsView>::empty());
        assert(items_views(r@) + Seq::<ItemsView>::empty() =~= items_views(r@));
    }
    r
}

} // verus!
