use rustup::path::FsPath;

fn comps(s: &str) -> Vec<String> {
    FsPath::parse(s).components().clone()
}

#[test]
fn parse_drops_empty_and_current_dir_pieces() {
    assert_eq!(comps("/a//b/./c/"), vec!["a", "b", "c"]);
    assert_eq!(comps("./a"), vec!["a"]);
    assert_eq!(comps("a/.."), vec!["a", ".."]);
    assert!(comps("/").is_empty());
    assert!(comps("").is_empty());
    assert!(FsPath::parse("/x").is_absolute());
    assert!(!FsPath::parse("x/y").is_absolute());
}

#[test]
fn join_appends_or_replaces() {
    let base = FsPath::parse("/opt/rust");
    let joined = base.join(&FsPath::parse("lib/rustlib"));
    assert_eq!(joined.components(), &comps("/opt/rust/lib/rustlib"));
    assert!(joined.is_absolute());
    let replaced = base.join(&FsPath::parse("/etc"));
    assert_eq!(replaced.components(), &comps("/etc"));
    assert_eq!(base.join_str("a/b").components(), &comps("/opt/rust/a/b"));
}

#[test]
fn file_name_and_parent() {
    assert_eq!(FsPath::parse("/a/b.txt/.").file_name().unwrap(), "b.txt");
    assert!(FsPath::parse("/a/..").file_name().is_none());
    assert!(FsPath::parse("/").file_name().is_none());
    let parent = FsPath::parse("/a/b").parent().unwrap();
    assert_eq!(parent.components(), &comps("/a"));
    assert!(parent.is_absolute());
    assert!(FsPath::parse("/").parent().is_none());
    assert!(FsPath::parse("a").parent().unwrap().components().is_empty());
}
