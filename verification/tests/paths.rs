use ion_win::paths::{
    below, equal_paths, file_name, is_rooted, leads_somewhere, lies_below, parent, parts, single_name,
    table_row_target, with_extension,
};

fn text(s: &str) -> Option<String> {
    Some(s.to_string())
}

#[test]
fn paths_are_taken_apart() {
    assert_eq!(parts("C:\\a/b\\.\\c"), ["a", "b", "c"]);
    assert_eq!(file_name("/a/b.txt"), text("b.txt"));
    assert_eq!(file_name("/a/.."), None);
    assert_eq!(file_name("/"), None);
    assert_eq!(parent("/a/b"), text("/a"));
    assert_eq!(parent("/a"), text("/"));
    assert_eq!(parent("a"), text(""));
    assert_eq!(parent("/"), None);
}

#[test]
fn paths_are_compared_by_their_parts() {
    assert!(equal_paths("/a//b/", "/a/b"));
    assert!(!equal_paths("/a/b", "a/b"));
    assert!(!equal_paths("C:/a", "D:/a"));
    assert!(lies_below("/a/b/c", "/a/b"));
    assert!(!lies_below("/a/bc", "/a/b"));
}

#[test]
fn names_are_told_from_paths() {
    assert!(single_name("a.txt"));
    assert!(!single_name("a/b"));
    assert!(!single_name("/a"));
    assert!(leads_somewhere("./a"));
    assert!(!leads_somewhere("a"));
    assert!(is_rooted("C:\\x") && is_rooted("/x") && !is_rooted("x"));
}

#[test]
fn paths_are_put_together() {
    assert_eq!(below("/a", "b"), "/a/b");
    assert_eq!(below("/a/", "b"), "/a/b");
    assert_eq!(below("", "b"), "b");
    assert_eq!(with_extension("/a/b.txt", "zip"), "/a/b.zip");
    assert_eq!(with_extension("/a/b", "zip"), "/a/b.zip");
}

#[test]
fn roots_have_no_parent_and_no_parts() {
    let none: [&str; 0] = [];
    for root in [
        "C:\\", r"\\?\C:\", r"\\?\C:", r"\\server\share\", r"\\server\share", r"\\?\UNC\server\share\",
        r"\\.\PhysicalDrive0\", "//server/share/", "/",
    ] {
        assert_eq!(parent(root), None, "{root}");
        assert_eq!(parts(root), none, "{root}");
        assert_eq!(file_name(root), None, "{root}");
        assert!(is_rooted(root) && leads_somewhere(root), "{root}");
    }
}

#[test]
fn what_stands_below_a_long_root_keeps_its_parts() {
    assert_eq!(parts(r"\\?\C:\Users\me"), ["Users", "me"]);
    assert_eq!(parent(r"\\?\C:\Users"), text(r"\\?\C:\"));
    assert_eq!(parts(r"\\?\UNC\server\share\a\b"), ["a", "b"]);
    assert_eq!(parent(r"\\server\share\a"), text(r"\\server\share\"));
    assert_eq!(parts(r"\\server\share\a"), ["a"]);
    assert_eq!(parts(r"\\server"), ["server"]);
    assert!(equal_paths(r"\\server\share", r"\\server\share\"));
    assert!(!equal_paths(r"\\server\share\a", r"\\server\other\a"));
    assert!(lies_below(r"\\?\C:\Users\me", r"\\?\C:\"));
    assert!(!lies_below(r"\\?\C:\Users", r"\\?\D:\"));
}

#[test]
fn paths_keep_the_separator_of_their_beginning() {
    assert_eq!(below(r"C:\Users", "a.txt"), r"C:\Users\a.txt");
    assert_eq!(below(r"C:\", "a.txt"), r"C:\a.txt");
    assert_eq!(below("C:", "a.txt"), "C:a.txt");
    assert_eq!(below(r"\\server\share", "a"), r"\\server\share\a");
    assert_eq!(below(r"sub\dir", "a"), r"sub\dir\a");
    assert_eq!(below("sub", "a"), "sub/a");
    assert_eq!(with_extension(r"C:\a\b.txt", "zip"), r"C:\a\b.zip");
    assert_eq!(table_row_target(r"C:\out", r"\\?\D:\in\a"), r"C:\out\in\a");
    assert_eq!(table_row_target("/out", r"\\server\share\a"), "/out/a");
}
