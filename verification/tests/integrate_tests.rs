use appi::error::Error;
use appi::integrate::{
    desktop_file_name, find_desktop_file, find_icon_file, rewrite_desktop_entry, DirEntry,
};

fn file(name: &[u8]) -> DirEntry {
    DirEntry { name: name.to_vec(), is_file: true }
}

fn dir(name: &[u8]) -> DirEntry {
    DirEntry { name: name.to_vec(), is_file: false }
}

#[test]
fn first_desktop_entry_wins() {
    let entries = vec![
        dir(b"usr"),
        file(b"AppRun"),
        file(b"tool.desktop"),
        file(b"extra.desktop"),
    ];
    assert_eq!(find_desktop_file(&entries), Ok(b"tool.desktop".to_vec()));
}

#[test]
fn missing_desktop_entry_aborts_integration() {
    let entries = vec![file(b"AppRun"), dir(b"tool.desktop")];
    assert!(matches!(find_desktop_file(&entries), Err(Error::IntegrationFailure)));
}

#[test]
fn first_icon_wins_and_case_does_not_matter() {
    let entries = vec![
        file(b"AppRun"),
        dir(b"icon.png"),
        file(b"logo.PNG"),
        file(b"alt.svg"),
    ];
    assert_eq!(find_icon_file(&entries), Ok(b"logo.PNG".to_vec()));
}

#[test]
fn missing_icon_aborts_integration() {
    let entries = vec![file(b"AppRun"), file(b"tool.desktop")];
    assert!(matches!(find_icon_file(&entries), Err(Error::IntegrationFailure)));
}

#[test]
fn webp_and_ico_count_as_icons() {
    assert_eq!(find_icon_file(&vec![file(b"a.webp")]), Ok(b"a.webp".to_vec()));
    assert_eq!(find_icon_file(&vec![file(b"a.ico")]), Ok(b"a.ico".to_vec()));
}

#[test]
fn rewrite_touches_exactly_the_icon_and_exec_lines() {
    let content = b"[Desktop Entry]\n\
        Name=Tool\n\
        Icon=tool\n\
        Exec=tool %F\n\
        Terminal=false";
    let out = rewrite_desktop_entry(content, b"/apps/tool/icon.png", b"/apps/tool/AppRun");
    let expected = b"[Desktop Entry]\n\
        Name=Tool\n\
        Icon=/apps/tool/icon.png\n\
        Exec=/apps/tool/AppRun %U\n\
        Terminal=false";
    assert_eq!(out, expected.to_vec());
}

#[test]
fn rewrite_keeps_untouched_content_byte_identical() {
    let content = b"[Desktop Entry]\nName=Tool\nComment=Icon= in the middle stays\n";
    let out = rewrite_desktop_entry(content, b"/i", b"/e");
    assert_eq!(out, content.to_vec());
}

#[test]
fn desktop_file_names_are_lower_case() {
    assert_eq!(desktop_file_name(b"MyTool"), b"mytool.desktop".to_vec());
}
