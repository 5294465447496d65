use appi::error::Error;
use appi::release::{
    bundle_assets, chosen_asset_url, filter_repos_by_probe, parse_repo_url, release_has_bundle,
    release_latest_version, release_version_text, resolve_release_artifact, shortlist_repos,
    ArtifactChoice, Assets, Items, GITHUB,
};

fn asset(name: &[u8], url: &[u8]) -> Assets {
    Assets { name: Some(name.to_vec()), browser_download_url: Some(url.to_vec()) }
}

fn release(tag: Option<&[u8]>, assets: Option<Vec<Assets>>) -> GITHUB {
    GITHUB { total_count: None, items: None, url: None, tag_name: tag.map(|t| t.to_vec()), assets }
}

#[test]
fn bundle_assets_keeps_only_bundles() {
    let g = release(
        None,
        Some(vec![
            asset(b"tool.tar.gz", b"/tar"),
            asset(b"tool.AppImage", b"/app"),
            Assets { name: None, browser_download_url: Some(b"/x".to_vec()) },
        ]),
    );
    let q = bundle_assets(&g);
    assert_eq!(q.len(), 1);
    assert_eq!(q[0].name, Some(b"tool.AppImage".to_vec()));
    assert!(release_has_bundle(&g));
    assert!(!release_has_bundle(&release(None, None)));
}

#[test]
fn zero_bundle_assets_is_an_error() {
    let g = release(Some(b"v1.0.0"), Some(vec![asset(b"tool.tar.gz", b"/tar")]));
    assert!(matches!(resolve_release_artifact(&g), Err(Error::NotFound)));
}

#[test]
fn a_single_bundle_asset_is_used_directly() {
    let g = release(Some(b"v1.0.0"), Some(vec![asset(b"tool.AppImage", b"/dl/tool")]));
    match resolve_release_artifact(&g).unwrap() {
        ArtifactChoice::Single { url } => assert_eq!(url, b"/dl/tool".to_vec()),
        ArtifactChoice::Multiple { .. } => panic!("expected a single asset"),
    }
}

#[test]
fn several_bundle_assets_need_a_choice() {
    let g = release(
        None,
        Some(vec![asset(b"tool-x86.appimage", b"/a"), asset(b"tool-arm.appimage", b"/b")]),
    );
    match resolve_release_artifact(&g).unwrap() {
        ArtifactChoice::Multiple { candidates } => {
            assert_eq!(candidates.len(), 2);
            assert_eq!(chosen_asset_url(&candidates, 1), Ok(b"/b".to_vec()));
        },
        ArtifactChoice::Single { .. } => panic!("expected several assets"),
    }
}

#[test]
fn version_text_comes_from_the_tag() {
    let g = release(Some(b"release-v2.3.1"), None);
    assert_eq!(release_version_text(&g), Ok(b"2.3.1".to_vec()));
    assert!(matches!(release_version_text(&release(None, None)), Err(Error::ParseFailure)));
}

#[test]
fn latest_version_parses_the_tag() {
    let g = release(Some(b"v1.2.3"), None);
    let v = release_latest_version(&g).unwrap();
    assert_eq!((v.major, v.minor, v.patch), (1, 2, 3));
    let bad = release(Some(b"nightly"), None);
    assert!(matches!(release_latest_version(&bad), Err(Error::ParseFailure)));
}

#[test]
fn latest_version_survives_a_dressed_tag() {
    let g = release(Some(b"release-v2.3.1"), None);
    let v = release_latest_version(&g).unwrap();
    assert_eq!((v.major, v.minor, v.patch), (2, 3, 1));
}

#[test]
fn repo_urls_yield_owner_and_repository() {
    assert_eq!(
        parse_repo_url(b"https://github.com/owner/repo/"),
        Ok((b"owner".to_vec(), b"repo".to_vec()))
    );
    assert_eq!(parse_repo_url(b"owner/repo"), Ok((b"owner".to_vec(), b"repo".to_vec())));
    assert!(matches!(parse_repo_url(b"lonely"), Err(Error::ParseFailure)));
}

#[test]
fn repo_shortlist_caps_at_five_complete_items() {
    let mut items: Vec<Items> = Vec::new();
    for k in 0..7u8 {
        items.push(Items {
            full_name: Some(vec![b'r', b'0' + k]),
            description: Some(b"desc".to_vec()),
        });
    }
    items.insert(1, Items { full_name: Some(b"nameless".to_vec()), description: None });
    let short = shortlist_repos(&items);
    assert_eq!(short.len(), 5);
    assert_eq!(short[0].full_name, Some(b"r0".to_vec()));
    assert_eq!(short[4].full_name, Some(b"r4".to_vec()));
}

#[test]
fn repo_probe_filter_keeps_relative_order() {
    let items = vec![
        Items { full_name: Some(b"a/a".to_vec()), description: Some(b"1".to_vec()) },
        Items { full_name: Some(b"b/b".to_vec()), description: Some(b"2".to_vec()) },
        Items { full_name: Some(b"c/c".to_vec()), description: Some(b"3".to_vec()) },
    ];
    let kept = filter_repos_by_probe(items, &vec![false, true, true]);
    assert_eq!(kept.len(), 2);
    assert_eq!(kept[0].full_name, Some(b"b/b".to_vec()));
    assert_eq!(kept[1].full_name, Some(b"c/c".to_vec()));
}
