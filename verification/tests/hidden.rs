use spacehog::is_hidden_path;

#[test]
fn path_is_hidden_where_its_last_component_begins_with_a_dot() {
    assert!(is_hidden_path(".git"));
    assert!(is_hidden_path("/home/me/.profile"));
    assert!(is_hidden_path("root/.tmpA1b2"));
    assert!(is_hidden_path("./.hidden"));
    assert!(is_hidden_path("..."));
    assert!(is_hidden_path("a/..b"));
    assert!(is_hidden_path(".é"));
}

#[test]
fn path_is_not_hidden_where_only_a_directory_above_is() {
    assert!(!is_hidden_path(".git/config"));
    assert!(!is_hidden_path("/home/me/.config/app/settings"));
    assert!(!is_hidden_path("a.b"));
    assert!(!is_hidden_path("file."));
    assert!(!is_hidden_path("é.txt"));
}

#[test]
fn path_without_a_name_is_not_hidden() {
    assert!(!is_hidden_path(""));
    assert!(!is_hidden_path("/"));
    assert!(!is_hidden_path("."));
    assert!(!is_hidden_path("./"));
    assert!(!is_hidden_path(".."));
    assert!(!is_hidden_path("a/.."));
    assert!(!is_hidden_path("../"));
    assert!(!is_hidden_path("/."));
    assert!(!is_hidden_path("././."));
}

#[test]
fn path_is_judged_by_its_last_component_whatever_follows_it() {
    assert!(is_hidden_path(".git/"));
    assert!(is_hidden_path(".git//"));
    assert!(is_hidden_path(".git/."));
    assert!(is_hidden_path("a/.b/./"));
    assert!(!is_hidden_path("a/b/."));
    assert!(!is_hidden_path(".a/b/"));
}

#[test]
fn path_is_judged_as_the_standard_library_names_files() {
    let paths = [
        "", "/", ".", "..", "...", "a", ".a", "a/", ".a/", "a/.", ".a/.", "a/..", "a/.b", "a/.b/",
        "a/.b//", "a/.b/./", "a/.b/..", "//", "/.", "/..", "/.a", "./a", "./.a", "../a", "../.a",
        "a//b", "a//.b", "a/./b", "a/./.b", ".a/b", "..a", "a..", "a/b/c/.d/e", "a/b/c/.d",
        ".é", "é/.é", "é", " .a", ". a", "./", "././", ".//.", "..//", "a/. /",
    ];
    for path in paths {
        let name = std::path::Path::new(path).file_name().and_then(|name| name.to_str());
        let want = name.map_or(false, |name| name.starts_with('.'));
        assert_eq!(is_hidden_path(path), want, "{path:?}");
    }
}
