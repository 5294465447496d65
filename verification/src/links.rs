//! Community-index package pages: finding the bundle artifact link.
//!
//! The index serves no artifact metadata, so the engine fetches the package's
//! web page and scans every hyperlink. A link qualifies when its visible
//! text ends in the bundle extension (case-insensitively) and carries no
//! foreign CPU-architecture marker; the last qualifying link wins — later
//! entries deliberately override earlier ones. The HTML itself is parsed by
//! the scraper crate behind one trusted call; every decision about the
//! extracted links is made here.

use vstd::prelude::*;
use vstd::slice::slice_to_vec;

use crate::bytes::{contains_seq, ends_with, lower};
use crate::identity::extension;

verus! {

/// One hyperlink of a package page: its visible text and its target.
pub struct Link {
    pub text: Vec<u8>,
    pub href: Vec<u8>,
}

/// The mathematical image of a `Link`.
pub ghost struct LinkView {
    pub text: Seq<u8>,
    pub href: Seq<u8>,
}

impl View for Link {
    type V = LinkView;

    open spec fn view(&self) -> LinkView {
        LinkView { text: self.text@, href: self.href@ }
    }
}

/// The views of a link sequence.
pub open spec fn link_views(s: Seq<Link>) -> Seq<LinkView> {
    s.map_values(|l: Link| l@)
}

/// The hyperlinks (visible text and `href` target, in document order) that
/// the scraper crate extracts from the given HTML text. A fixed document
/// always yields the same anchors; nothing here restates the HTML grammar.
pub uninterp spec fn page_links(html: Seq<u8>) -> Seq<LinkView>;

/// Relies on scraper's Html::parse_document and ElementRef::text / attr:
/// collects every `a` element's visible text and `href` target, in document
/// order; an anchor without `href` yields an empty target.
#[verifier::external_body]
fn collect_page_links(html: &[u8]) -> (r: Vec<Link>)
    ensures
        link_views(r@) == page_links(html@),
{
    let document = scraper::Html::parse_document(&String::from_utf8_lossy(html));
    let selector = scraper::Selector::parse("a").unwrap();
    let mut links: Vec<Link> = Vec::new();
    for element in document.select(&selector) {
        let text = element.text().collect::<String>();
        let href = element.value().attr("href").unwrap_or("");
        links.push(Link { text: text.into_bytes(), href: href.as_bytes().to_vec() });
    }
    links
}

/// Markers of CPU architectures this workstation does not run: a link whose
/// text carries one names an artifact for another machine.
pub open spec fn foreign_arch_markers() -> Seq<Seq<u8>> {
    seq![
        seq![105u8, 51, 56, 54],// i386
        seq![105u8, 54, 56, 54],// i686
        seq![97u8, 97, 114, 99, 104, 54, 52],// aarch64
        seq![97u8, 114, 109, 54, 52],// arm64
        seq![97u8, 114, 109, 104, 102],// armhf
        seq![97u8, 114, 109, 118, 55],// armv7
    ]
}

/// Link text tagged with a foreign CPU architecture, compared
/// case-insensitively.
pub open spec fn is_foreign_arch_text(text: Seq<u8>) -> bool {
    exists|k: int|
        0 <= k < foreign_arch_markers().len() && contains_seq(
            lower(text),
            #[trigger] foreign_arch_markers()[k],
        )
}

/// A link that offers the bundle: its text ends in the bundle extension,
/// compared case-insensitively, and is not tagged with a foreign CPU
/// architecture.
pub open spec fn is_bundle_link(l: LinkView) -> bool {
    ends_with(lower(l.text), extension()) && !is_foreign_arch_text(l.text)
}

/// Does this link text qualify for the bundle artifact?
fn link_qualifies(text: &[u8]) -> (r: bool)
    ensures
        r == (ends_with(lower(text@), extension()) && !is_foreign_arch_text(text@)),
{
    let low = crate::bytes::to_lower(text);
    let ext = crate::identity::extension_bytes();
    if !crate::bytes::has_suffix(low.as_slice(), ext.as_slice()) {
        return false;
    }
    let markers: Vec<Vec<u8>> = vec![
        vec![105u8, 51, 56, 54],
        vec![105u8, 54, 56, 54],
        vec![97u8, 97, 114, 99, 104, 54, 52],
        vec![97u8, 114, 109, 54, 52],
        vec![97u8, 114, 109, 104, 102],
        vec![97u8, 114, 109, 118, 55],
    ];
    proof {
        assert(markers.deep_view() =~~= foreign_arch_markers());
    }
    let mut k: usize = 0;
    while k < markers.len()
        invariant
            k <= markers@.len(),
            low@ == lower(text@),
            markers.deep_view() == foreign_arch_markers(),
            markers@.len() == foreign_arch_markers().len(),
            forall|m: int|
                0 <= m < k ==> !contains_seq(lower(text@), #[trigger] foreign_arch_markers()[m]),
        decreases markers@.len() - k,
    {
        proof {
            assert(markers.deep_view()[k as int] == markers@[k as int]@);
        }
        if crate::bytes::contains_bytes(low.as_slice(), markers[k].as_slice()) {
            return false;
        }
        k = k + 1;
    }
    true
}

/// The artifact the page offers: the target of the last qualifying link,
/// or nothing when no link qualifies.
pub open spec fn chosen_artifact(links: Seq<LinkView>) -> Option<Seq<u8>>
    decreases links.len(),
{
    if links.len() == 0 {
        None
    } else if is_bundle_link(links.last()) {
        Some(links.last().href)
    } else {
        chosen_artifact(links.drop_last())
    }
}

/// Scan the links for the bundle artifact: the last qualifying link wins;
/// links tagged with a foreign CPU architecture never qualify.
pub fn select_artifact_url(links: &Vec<Link>) -> (r: Option<Vec<u8>>)
    ensures
        match r {
            Some(url) => chosen_artifact(link_views(links@)) == Some(url@),
            None => chosen_artifact(link_views(links@)) is None,
        },
{
    let ghost all = link_views(links@);
    let mut r: Option<Vec<u8>> = None;
    let mut i: usize = 0;
    proof {
        assert(all.subrange(0, 0) =~= Seq::<LinkView>::empty());
    }
    while i < links.len()
        invariant
            i <= links@.len(),
            all == link_views(links@),
            match r {
                Some(url) => chosen_artifact(all.subrange(0, i as int)) == Some(url@),
                None => chosen_artifact(all.subrange(0, i as int)) is None,
            },
        decreases links@.len() - i,
    {
        proof {
            assert(all.subrange(0, i + 1).drop_last() =~= all.subrange(0, i as int));
            assert(all.subrange(0, i + 1).last() == all[i as int]);
            assert(all[i as int] == links@[i as int]@);
        }
        let link = &links[i];
        if link_qualifies(link.text.as_slice()) {
            r = Some(slice_to_vec(link.href.as_slice()));
        }
        i = i + 1;
    }
    proof {
        assert(all.subrange(0, all.len() as int) =~= all);
    }
    r
}

/// Does the page offer the bundle at all? True exactly when some link
/// qualifies.
pub fn page_has_bundle(links: &Vec<Link>) -> (r: bool)
    ensures
        r == (chosen_artifact(link_views(links@)) is Some),
{
    let url = select_artifact_url(links);
    url.is_some()
}

/// Resolve the artifact link of a fetched package page: parse the HTML,
/// then pick the last qualifying link.
pub fn get_appimage_url(html: &[u8]) -> (r: Option<Vec<u8>>)
    ensures
        match r {
            Some(url) => chosen_artifact(page_links(html@)) == Some(url@),
            None => chosen_artifact(page_links(html@)) is None,
        },
{
    let links = collect_page_links(html);
    select_artifact_url(&links)
}

/// Does a fetched package page offer the bundle?
pub fn check_appimage(html: &[u8]) -> (r: bool)
    ensures
        r == (chosen_artifact(page_links(html@)) is Some),
{
    let links = collect_page_links(html);
    page_has_bundle(&links)
}

} // verus!
