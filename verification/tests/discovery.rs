use bazooka::discovery::app_dirs;

#[test]
fn defaults_apply_where_the_environment_is_silent() {
    assert_eq!(
        app_dirs(None, Some("/home/ann"), None),
        vec![
            "/home/ann/.local/share/applications",
            "/usr/local/share/applications",
            "/usr/share/applications",
            "/var/lib/flatpak/exports/share/applications",
            "/var/lib/snapd/desktop/applications",
        ]
    );
}

#[test]
fn the_data_home_takes_precedence_over_the_home_directory() {
    assert_eq!(
        app_dirs(Some("/data/ann"), Some("/home/ann"), None)[0],
        "/data/ann/applications"
    );
    assert_eq!(app_dirs(Some("/data/ann"), None, None)[0], "/data/ann/applications");
}

#[test]
fn an_unknown_home_is_left_out() {
    assert_eq!(
        app_dirs(None, None, None),
        vec![
            "/usr/local/share/applications",
            "/usr/share/applications",
            "/var/lib/flatpak/exports/share/applications",
            "/var/lib/snapd/desktop/applications",
        ]
    );
}

#[test]
fn every_component_of_the_system_list_gives_a_directory() {
    assert_eq!(
        app_dirs(Some("/d"), Some("/h"), Some("/usr/share:/opt/share/:/usr/share")),
        vec![
            "/d/applications",
            "/usr/share/applications",
            "/opt/share/applications",
            "/usr/share/applications",
            "/var/lib/flatpak/exports/share/applications",
            "/var/lib/snapd/desktop/applications",
        ]
    );
}

#[test]
fn empty_components_give_relative_directories() {
    assert_eq!(
        app_dirs(Some(""), None, Some(":/a")),
        vec![
            "applications",
            "applications",
            "/a/applications",
            "/var/lib/flatpak/exports/share/applications",
            "/var/lib/snapd/desktop/applications",
        ]
    );
    assert_eq!(app_dirs(None, None, Some("")).len(), 3);
}

#[test]
fn the_root_directory_needs_no_separator() {
    assert_eq!(app_dirs(None, Some("/"), None)[0], "/.local/share/applications");
}

#[test]
fn directories_are_joined_as_paths_are() {
    for base in ["", "/", "/usr/share", "/usr/share/", "relative", "a//"] {
        let expected = std::path::Path::new(base).join("applications");
        assert_eq!(
            std::path::Path::new(&app_dirs(Some(base), None, None)[0]),
            expected.as_path()
        );
        assert_eq!(app_dirs(Some(base), None, None)[0], expected.to_str().unwrap());
    }
}
