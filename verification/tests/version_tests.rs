use appi::error::Error;
use appi::version::{
    parse_index_version, parse_installed_version, parse_release_tag, SemanticVersion,
};

fn v(text: &[u8]) -> SemanticVersion {
    parse_installed_version(text).unwrap()
}

#[test]
fn distribution_suffix_is_stripped_before_parsing() {
    let parsed = parse_index_version(b"2.3.1-1").unwrap();
    assert_eq!(parsed.major, 2);
    assert_eq!(parsed.minor, 3);
    assert_eq!(parsed.patch, 1);
    assert!(parsed.pre.is_empty());
}

#[test]
fn release_tag_keeps_only_digits_and_dots() {
    let parsed = parse_release_tag(b"release-v2.3.1").unwrap();
    assert_eq!(parsed.major, 2);
    assert_eq!(parsed.minor, 3);
    assert_eq!(parsed.patch, 1);
    assert!(parsed.pre.is_empty());
}

#[test]
fn plain_version_parses() {
    let parsed = v(b"1.20.3");
    assert_eq!(parsed.major, 1);
    assert_eq!(parsed.minor, 20);
    assert_eq!(parsed.patch, 3);
}

#[test]
fn malformed_version_is_a_parse_failure() {
    assert!(matches!(parse_installed_version(b"abc"), Err(Error::ParseFailure)));
    assert!(matches!(parse_installed_version(b"1.0"), Err(Error::ParseFailure)));
    assert!(matches!(parse_index_version(b"not-a-version"), Err(Error::ParseFailure)));
}

#[test]
fn numeric_components_compare_numerically() {
    assert!(v(b"1.0.0").is_older_than(&v(b"1.2.0")));
    assert!(v(b"9.9.9").is_older_than(&v(b"10.0.0")));
    assert!(!v(b"10.0.0").is_older_than(&v(b"9.9.9")));
    assert!(!v(b"1.2.0").is_older_than(&v(b"1.2.0")));
}

#[test]
fn prerelease_ranks_below_release() {
    assert!(v(b"1.0.0-alpha").is_older_than(&v(b"1.0.0")));
    assert!(!v(b"1.0.0").is_older_than(&v(b"1.0.0-alpha")));
}

#[test]
fn standard_precedence_chain_holds() {
    let chain: Vec<SemanticVersion> = vec![
        v(b"1.0.0-alpha"),
        v(b"1.0.0-alpha.1"),
        v(b"1.0.0-alpha.beta"),
        v(b"1.0.0-beta"),
        v(b"1.0.0-beta.2"),
        v(b"1.0.0-beta.11"),
        v(b"1.0.0-rc.1"),
        v(b"1.0.0"),
    ];
    for i in 0..chain.len() {
        for j in 0..chain.len() {
            assert_eq!(chain[i].is_older_than(&chain[j]), i < j);
        }
    }
}

#[test]
fn numeric_prerelease_identifiers_compare_by_value() {
    assert!(v(b"1.0.0-pre.8").is_older_than(&v(b"1.0.0-pre.12")));
    assert!(v(b"1.0.0-pre12").is_older_than(&v(b"1.0.0-pre8")));
    assert!(v(b"1.0.0-pre.1").is_older_than(&v(b"1.0.0-pre.x")));
}

#[test]
fn canonical_text_renders_the_numbers() {
    assert_eq!(v(b"1.2.3").text(), b"1.2.3".to_vec());
    assert_eq!(v(b"0.0.0").text(), b"0.0.0".to_vec());
    assert_eq!(v(b"10.200.3000").text(), b"10.200.3000".to_vec());
}
