use bazooka::index::{index_files, is_shortcut_file, Index};

const VALID: &str = "[Desktop Entry]\nName=Foo\nExec=foo %U\nActions=New;\n\
                     [Desktop Action New]\nName=New Window\nExec=foo --new\n";
const OTHER: &str = "[Desktop Entry]\nName=Bar\nExec=bar\n";
const MALFORMED: &str = "\u{0}\u{1} not a shortcut [Desktop Entry\nName\n=\n";

fn entry_names(entries: &[bazooka::desktop::DesktopEntry]) -> Vec<String> {
    entries.iter().map(|e| e.name.clone()).collect()
}

#[test]
fn a_malformed_file_does_not_stop_the_pass() {
    let files = vec![Some(MALFORMED.to_string()), Some(VALID.to_string())];
    assert_eq!(entry_names(&index_files(&files)), vec!["Foo", "Foo - New Window"]);
    let files = vec![Some(VALID.to_string()), Some(MALFORMED.to_string())];
    assert_eq!(entry_names(&index_files(&files)), vec!["Foo", "Foo - New Window"]);
}

#[test]
fn an_unreadable_file_is_passed_over() {
    let files = vec![None, Some(VALID.to_string()), None, Some(OTHER.to_string())];
    assert_eq!(entry_names(&index_files(&files)), vec!["Foo", "Foo - New Window", "Bar"]);
    assert!(index_files(&[None, None]).is_empty());
    assert!(index_files(&[]).is_empty());
}

#[test]
fn entries_keep_scan_order_and_duplicates() {
    let files = vec![Some(OTHER.to_string()), Some(VALID.to_string()), Some(OTHER.to_string())];
    assert_eq!(entry_names(&index_files(&files)), vec!["Bar", "Foo", "Foo - New Window", "Bar"]);
}

#[test]
fn the_index_grows_file_by_file() {
    let mut index = Index::new();
    assert_eq!(index.len(), 0);
    index.add_file(Some(VALID));
    assert_eq!(index.len(), 2);
    index.add_file(None);
    assert_eq!(index.len(), 2);
    index.add_file(Some(MALFORMED));
    assert_eq!(index.len(), 2);
    index.add_file(Some(OTHER));
    assert_eq!(index.len(), 3);
    let entries = index.into_entries();
    assert_eq!(entry_names(&entries), vec!["Foo", "Foo - New Window", "Bar"]);
    assert_eq!(entries[0].command, "foo");
}

#[test]
fn only_files_with_the_desktop_extension_are_read() {
    assert!(is_shortcut_file("firefox.desktop"));
    assert!(is_shortcut_file("org.gnome.Files.desktop"));
    assert!(is_shortcut_file("a.desktop"));
    assert!(is_shortcut_file("..desktop"));
    assert!(is_shortcut_file("日本.desktop"));
    assert!(!is_shortcut_file(".desktop"));
    assert!(!is_shortcut_file("desktop"));
    assert!(!is_shortcut_file(""));
    assert!(!is_shortcut_file("firefox.Desktop"));
    assert!(!is_shortcut_file("firefox.desktop.bak"));
    assert!(!is_shortcut_file("firefox.desktop "));
    assert!(!is_shortcut_file("firefoxdesktop"));
    assert!(!is_shortcut_file("mimeinfo.cache"));
}

#[test]
fn the_extension_rule_is_that_of_paths() {
    for name in ["a.desktop", ".desktop", "..desktop", "a.b.desktop", "a.desktop.", "a", "a.txt", "desktop"]
    {
        let expected = std::path::Path::new(name).extension().and_then(|e| e.to_str())
            == Some("desktop");
        assert_eq!(is_shortcut_file(name), expected, "{}", name);
    }
}
