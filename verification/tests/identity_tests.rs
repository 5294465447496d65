use appi::error::Error;
use appi::identity::{
    decode_filename, denormalize_name, encode_filename, normalize_name, PackageIdentity,
};

#[test]
fn decode_then_encode_is_byte_identical() {
    let name = b"myapp-aur-v1.0.0.appimage";
    let id = decode_filename(name).unwrap();
    assert_eq!(id.name, b"myapp".to_vec());
    assert_eq!(id.tag, b"aur".to_vec());
    assert_eq!(id.version, b"1.0.0".to_vec());
    let back = encode_filename(&id);
    assert_eq!(back, name.to_vec());
}

#[test]
fn decode_reads_codehost_tag() {
    let id = decode_filename(b"tool_kit-some_owner-v2.10.3.appimage").unwrap();
    assert_eq!(id.name, b"tool_kit".to_vec());
    assert_eq!(id.tag, b"some_owner".to_vec());
    assert_eq!(id.version, b"2.10.3".to_vec());
}

#[test]
fn decode_is_case_insensitive() {
    let id = decode_filename(b"MyApp-AUR-v1.0.0.AppImage").unwrap();
    assert_eq!(id.name, b"myapp".to_vec());
    assert_eq!(id.tag, b"aur".to_vec());
    assert_eq!(id.version, b"1.0.0".to_vec());
}

#[test]
fn decode_rejects_missing_extension() {
    assert!(matches!(decode_filename(b"myapp-aur-v1.0.0.tar"), Err(Error::ParseFailure)));
    assert!(matches!(decode_filename(b"myapp-aur-v1.0.0"), Err(Error::ParseFailure)));
}

#[test]
fn decode_rejects_too_few_segments() {
    assert!(matches!(decode_filename(b"myapp.appimage"), Err(Error::ParseFailure)));
    assert!(matches!(decode_filename(b"myapp-aur.appimage"), Err(Error::ParseFailure)));
}

#[test]
fn encode_builds_the_expected_name() {
    let id = PackageIdentity {
        name: b"tool".to_vec(),
        tag: b"owner".to_vec(),
        version: b"0.3.9".to_vec(),
    };
    assert_eq!(encode_filename(&id), b"tool-owner-v0.3.9.appimage".to_vec());
}

#[test]
fn normalization_swaps_hyphen_and_underscore() {
    assert_eq!(normalize_name(b"my-app"), b"my_app".to_vec());
    assert_eq!(denormalize_name(b"my_app"), b"my-app".to_vec());
    assert_eq!(denormalize_name(&normalize_name(b"a-b-c")), b"a-b-c".to_vec());
}
