use appi::links::{check_appimage, get_appimage_url, page_has_bundle, select_artifact_url, Link};

fn link(text: &[u8], href: &[u8]) -> Link {
    Link { text: text.to_vec(), href: href.to_vec() }
}

#[test]
fn last_qualifying_link_wins() {
    let links = vec![
        link(b"app-old.AppImage", b"/old"),
        link(b"readme.txt", b"/txt"),
        link(b"app-new.appimage", b"/new"),
    ];
    assert_eq!(select_artifact_url(&links), Some(b"/new".to_vec()));
    assert!(page_has_bundle(&links));
}

#[test]
fn no_qualifying_link_yields_nothing() {
    let links = vec![link(b"readme.txt", b"/txt"), link(b"app.tar.gz", b"/tar")];
    assert_eq!(select_artifact_url(&links), None);
    assert!(!page_has_bundle(&links));
}

#[test]
fn page_scan_finds_the_artifact_link() {
    let html = b"<html><body>\
        <a href=\"/first\">tool-1.0-x86_64.AppImage</a>\
        <a href=\"/doc\">manual.pdf</a>\
        <a href=\"/second\">tool-1.1-x86_64.appimage</a>\
        </body></html>";
    assert_eq!(get_appimage_url(html), Some(b"/second".to_vec()));
    assert!(check_appimage(html));
}

#[test]
fn page_without_bundle_links_is_rejected() {
    let html = b"<html><body><a href=\"/doc\">manual.pdf</a></body></html>";
    assert_eq!(get_appimage_url(html), None);
    assert!(!check_appimage(html));
}

#[test]
fn foreign_architecture_links_are_excluded() {
    let links = vec![
        link(b"tool-x86_64.AppImage", b"/native"),
        link(b"tool-aarch64.AppImage", b"/arm"),
    ];
    assert_eq!(select_artifact_url(&links), Some(b"/native".to_vec()));

    let only_foreign = vec![
        link(b"tool-i686.appimage", b"/i686"),
        link(b"tool-armv7.appimage", b"/armv7"),
    ];
    assert_eq!(select_artifact_url(&only_foreign), None);
    assert!(!page_has_bundle(&only_foreign));
}
