use appi::fetch::identity_for_community;
use appi::identity::{decode_filename, encode_filename};
use appi::update::{plan_update, step_outcome, BundleOutcome, UpdateDecision};
use appi::version::parse_installed_version;

#[test]
fn older_installed_version_is_stale() {
    let installed = parse_installed_version(b"1.0.0").unwrap();
    let latest = parse_installed_version(b"1.2.0").unwrap();
    assert_eq!(plan_update(&installed, &latest), UpdateDecision::Replace);
}

#[test]
fn equal_versions_are_up_to_date() {
    let installed = parse_installed_version(b"1.2.0").unwrap();
    let latest = parse_installed_version(b"1.2.0").unwrap();
    assert_eq!(plan_update(&installed, &latest), UpdateDecision::UpToDate);
}

#[test]
fn newer_installed_version_is_up_to_date() {
    let installed = parse_installed_version(b"2.0.0").unwrap();
    let latest = parse_installed_version(b"1.9.9").unwrap();
    assert_eq!(plan_update(&installed, &latest), UpdateDecision::UpToDate);
}

#[test]
fn outcomes_follow_the_decision() {
    assert_eq!(step_outcome(UpdateDecision::UpToDate, true), BundleOutcome::UpToDate);
    assert_eq!(step_outcome(UpdateDecision::UpToDate, false), BundleOutcome::UpToDate);
    assert_eq!(step_outcome(UpdateDecision::Replace, true), BundleOutcome::Replaced);
    assert_eq!(step_outcome(UpdateDecision::Replace, false), BundleOutcome::Failed);
}

#[test]
fn replacement_encodes_the_new_version() {
    let id = decode_filename(b"myapp-aur-v1.0.0.appimage").unwrap();
    let installed = parse_installed_version(&id.version).unwrap();
    let latest = parse_installed_version(b"1.2.0").unwrap();
    assert_eq!(plan_update(&installed, &latest), UpdateDecision::Replace);
    let fresh = identity_for_community(&id.name, &latest);
    assert_eq!(encode_filename(&fresh), b"myapp-aur-v1.2.0.appimage".to_vec());
}

#[test]
fn fresh_identities_are_written_lower_case() {
    let version = parse_installed_version(b"1.0.0").unwrap();
    let community = identity_for_community(b"My-App", &version);
    assert_eq!(encode_filename(&community), b"my_app-aur-v1.0.0.appimage".to_vec());

    let codehost = appi::fetch::identity_for_codehost(b"Some-Repo", b"Some-Owner", b"1.0.0");
    let written = encode_filename(&codehost);
    assert_eq!(written, b"some_repo-some_owner-v1.0.0.appimage".to_vec());
    let back = decode_filename(&written).unwrap();
    assert_eq!(encode_filename(&back), written);
}
