use appi::error::Error;
use appi::fetch::{plan_fetch, source_of_tag, FetchPlan, SourceKind};
use appi::identity::PackageIdentity;
use appi::bytes::contains_bytes;
use appi::index::{build_index, find_matching_desktop, parse_artifact, sort_names, ScanEntry};

fn entry(directory: &[u8], file: &[u8]) -> ScanEntry {
    ScanEntry { directory: directory.to_vec(), file: file.to_vec() }
}

#[test]
fn index_is_ordered_by_name() {
    let entries = vec![
        entry(b"zed", b"zed-aur-v1.0.0.appimage"),
        entry(b"alpha", b"alpha-owner-v2.0.0.appimage"),
        entry(b"mid", b"mid-aur-v0.1.0.appimage"),
    ];
    let idx = build_index(&entries).unwrap();
    let names: Vec<Vec<u8>> = idx.iter().map(|b| b.identity.name.clone()).collect();
    assert_eq!(names, vec![b"alpha".to_vec(), b"mid".to_vec(), b"zed".to_vec()]);
    assert_eq!(idx[0].identity.tag, b"owner".to_vec());
    assert_eq!(idx[0].identity.version, b"2.0.0".to_vec());
    assert_eq!(idx[0].directory, b"alpha".to_vec());
    assert_eq!(idx[0].artifact, b"alpha-owner-v2.0.0.appimage".to_vec());
}

#[test]
fn corrupt_file_names_are_reported() {
    let entries = vec![
        entry(b"good", b"good-aur-v1.0.0.appimage"),
        entry(b"bad", b"junk.appimage"),
    ];
    assert!(matches!(build_index(&entries), Err(Error::ParseFailure)));
}

#[test]
fn parse_artifact_builds_a_bundle() {
    let b = parse_artifact(b"tool", b"tool-aur-v3.2.1.appimage").unwrap();
    assert_eq!(b.identity.name, b"tool".to_vec());
    assert_eq!(b.directory, b"tool".to_vec());
    assert_eq!(b.artifact, b"tool-aur-v3.2.1.appimage".to_vec());
}

#[test]
fn names_sort_ascending() {
    let names = vec![b"pear".to_vec(), b"apple".to_vec(), b"orange".to_vec()];
    let sorted = sort_names(names);
    assert_eq!(sorted, vec![b"apple".to_vec(), b"orange".to_vec(), b"pear".to_vec()]);
}

#[test]
fn matching_desktop_entry_is_found_by_substring() {
    let files = vec![b"other.desktop".to_vec(), b"mytool.desktop".to_vec()];
    assert_eq!(find_matching_desktop(&files, b"mytool"), Some(b"mytool.desktop".to_vec()));
    assert_eq!(find_matching_desktop(&files, b"absent"), None);
    assert!(contains_bytes(b"mytool.desktop", b"tool"));
    assert!(!contains_bytes(b"mytool.desktop", b"tools"));
}

#[test]
fn existing_directory_skips_the_fetch() {
    let id = PackageIdentity {
        name: b"tool".to_vec(),
        tag: b"aur".to_vec(),
        version: b"1.0.0".to_vec(),
    };
    assert!(matches!(plan_fetch(&id, true), FetchPlan::AlreadyInstalled));
}

#[test]
fn fresh_install_settles_its_whole_footprint() {
    let id = PackageIdentity {
        name: b"tool".to_vec(),
        tag: b"owner".to_vec(),
        version: b"1.0.0".to_vec(),
    };
    match plan_fetch(&id, false) {
        FetchPlan::Download { directory, artifact } => {
            assert_eq!(directory, b"tool".to_vec());
            assert_eq!(artifact, b"tool-owner-v1.0.0.appimage".to_vec());
        },
        FetchPlan::AlreadyInstalled => panic!("expected a download plan"),
    }
}

#[test]
fn the_aur_tag_marks_the_community_index() {
    assert_eq!(source_of_tag(b"aur"), SourceKind::CommunityIndex);
    assert_eq!(source_of_tag(b"someowner"), SourceKind::CodeHost);
}
