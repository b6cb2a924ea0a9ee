use rustup::dist::component::transaction::{Transaction, TxError};
use rustup::dist::prefix::{InstallPrefix, InstallPrefixWithOrigin};
use rustup::fs_model::{FsAction, FsModel, Node};
use rustup::path::FsPath;

fn p(s: &str) -> FsPath {
    FsPath::parse(s)
}

/// A tree with an installation prefix, a package directory and a temporary
/// directory, and a transaction on the prefix that has been set up.
struct Cx {
    fs: FsModel,
    prefix: FsPath,
    pkg_dir: FsPath,
    tx: Transaction,
}

fn context() -> Cx {
    let mut fs = FsModel::new();
    for dir in ["/work/prefix", "/work/pkg", "/work/tmp", "/work/toolchains"] {
        fs.apply(&FsAction::EnsureDir { path: p(dir) }).unwrap();
    }
    let prefix = InstallPrefixWithOrigin {
        dest: InstallPrefix::from_path(p("/work/prefix")),
        orig: None,
    };
    let (tx, setup) = Transaction::new(
        p("/work/toolchains/stable"),
        prefix,
        p("/work/tmp/prefix-obj"),
        p("/work/tmp/stable-ref"),
        false,
    )
    .ok()
    .unwrap();
    fs.run(&setup).unwrap();
    Cx {
        fs,
        prefix: p("/work/prefix"),
        pkg_dir: p("/work/pkg"),
        tx,
    }
}

fn write(fs: &mut FsModel, path: &FsPath, content: &str) {
    fs.apply(&FsAction::WriteFile {
        path: path.duplicate(),
        content: content.to_string(),
    })
    .unwrap();
}

/// The path in the staging directory for `rel`, with its parent created.
fn dest_abs_path(cx: &mut Cx, rel: &str) -> FsPath {
    let (abs, prep) = cx.tx.dest_abs_path(&p(rel));
    cx.fs.run(&prep).unwrap();
    abs
}

fn stage_remove_file(cx: &mut Cx, component: &str, rel: &str) -> Result<(), TxError> {
    let abs = dest_abs_path(cx, rel);
    let present = cx.fs.path_exists(&abs);
    let acts = cx.tx.remove_file(component, &p(rel), present)?;
    cx.fs.run(&acts).unwrap();
    Ok(())
}

fn stage_remove_dir(cx: &mut Cx, component: &str, rel: &str) -> Result<(), TxError> {
    let abs = dest_abs_path(cx, rel);
    let present = cx.fs.path_exists(&abs);
    let acts = cx.tx.remove_dir(component, &p(rel), present)?;
    cx.fs.run(&acts).unwrap();
    Ok(())
}

fn commit(cx: &mut Cx) {
    let acts = cx.tx.commit_actions();
    cx.fs.run(&acts).unwrap();
    cx.tx.mark_committed();
}

fn rollback(cx: &mut Cx) {
    let acts = cx.tx.rollback_actions();
    cx.fs.run_all(&acts);
}

fn in_prefix(cx: &Cx, rel: &str) -> FsPath {
    cx.prefix.join(&p(rel))
}

fn in_pkg(cx: &Cx, rel: &str) -> FsPath {
    cx.pkg_dir.join(&p(rel))
}

fn content_of(fs: &FsModel, path: &FsPath) -> Option<String> {
    match fs.node_at(path) {
        Some(Node::File { content }) => Some(content),
        _ => None,
    }
}

#[test]
fn add_file() {
    let mut cx = context();
    let acts = cx.tx.add_file("c", &p("foo/bar"));
    cx.fs.run(&acts).unwrap();
    let staged = cx.tx.dest_abs_path(&p("foo/bar")).0;
    write(&mut cx.fs, &staged, "test");
    commit(&mut cx);
    assert_eq!(content_of(&cx.fs, &in_prefix(&cx, "foo/bar")).unwrap(), "test");
}

#[test]
fn add_file_then_rollback() {
    let mut cx = context();
    let acts = cx.tx.add_file("c", &p("foo/bar"));
    cx.fs.run(&acts).unwrap();
    rollback(&mut cx);
    assert!(!cx.fs.is_file(&in_prefix(&cx, "foo/bar")));
}

#[test]
fn add_file_that_exists() {
    let mut cx = context();
    let foo = in_prefix(&cx, "foo");
    cx.fs.apply(&FsAction::EnsureDir { path: foo }).unwrap();
    let existing = in_prefix(&cx, "foo/bar");
    write(&mut cx.fs, &existing, "");
    let acts = cx.tx.add_file("c", &p("foo/bar"));
    cx.fs.run(&acts).unwrap();
}

#[test]
fn copy_file() {
    let mut cx = context();
    let srcpath = in_pkg(&cx, "bar");
    write(&mut cx.fs, &srcpath, "");
    let acts = cx.tx.copy_file("c", &p("foo/bar"), &srcpath);
    cx.fs.run(&acts).unwrap();
    commit(&mut cx);
    assert!(cx.fs.is_file(&in_prefix(&cx, "foo/bar")));
}

#[test]
fn copy_file_then_rollback() {
    let mut cx = context();
    let srcpath = in_pkg(&cx, "bar");
    write(&mut cx.fs, &srcpath, "");
    let acts = cx.tx.copy_file("c", &p("foo/bar"), &srcpath);
    cx.fs.run(&acts).unwrap();
    rollback(&mut cx);
    assert!(!cx.fs.is_file(&in_prefix(&cx, "foo/bar")));
}

#[test]
fn copy_file_that_exists() {
    let mut cx = context();
    let srcpath = in_pkg(&cx, "bar");
    write(&mut cx.fs, &srcpath, "");
    cx.fs.apply(&FsAction::EnsureDir { path: in_prefix(&cx, "foo") }).unwrap();
    let existing = in_prefix(&cx, "foo/bar");
    write(&mut cx.fs, &existing, "");
    let acts = cx.tx.copy_file("c", &p("foo/bar"), &srcpath);
    cx.fs.run(&acts).unwrap();
}

fn fill_pkg_dir(cx: &mut Cx) {
    for dir in ["bar", "bar/qux"] {
        let path = in_pkg(cx, dir);
        cx.fs.apply(&FsAction::EnsureDir { path }).unwrap();
    }
    for file in ["foo", "bar/baz", "bar/qux/tickle"] {
        let path = in_pkg(cx, file);
        write(&mut cx.fs, &path, "");
    }
}

#[test]
fn copy_dir() {
    let mut cx = context();
    fill_pkg_dir(&mut cx);
    let src = cx.pkg_dir.duplicate();
    let acts = cx.tx.copy_dir("c", &p("a"), &src);
    cx.fs.run(&acts).unwrap();
    commit(&mut cx);
    assert!(cx.fs.is_file(&in_prefix(&cx, "a/foo")));
    assert!(cx.fs.is_file(&in_prefix(&cx, "a/bar/baz")));
    assert!(cx.fs.is_file(&in_prefix(&cx, "a/bar/qux/tickle")));
}

#[test]
fn copy_dir_then_rollback() {
    let mut cx = context();
    fill_pkg_dir(&mut cx);
    let src = cx.pkg_dir.duplicate();
    let acts = cx.tx.copy_dir("c", &p("a"), &src);
    cx.fs.run(&acts).unwrap();
    rollback(&mut cx);
    assert!(!cx.fs.is_file(&in_prefix(&cx, "a/foo")));
    assert!(!cx.fs.is_file(&in_prefix(&cx, "a/bar/baz")));
    assert!(!cx.fs.is_file(&in_prefix(&cx, "a/bar/qux/tickle")));
}

#[test]
fn copy_dir_that_exists() {
    let mut cx = context();
    let staged = dest_abs_path(&mut cx, "a");
    cx.fs.apply(&FsAction::EnsureDir { path: staged }).unwrap();
    let src = cx.pkg_dir.duplicate();
    let acts = cx.tx.copy_dir("c", &p("a"), &src);
    assert!(cx.fs.run(&acts).is_err());
}

#[test]
fn remove_file() {
    let mut cx = context();
    let filepath = in_prefix(&cx, "foo");
    let temp_path = dest_abs_path(&mut cx, "foo");
    write(&mut cx.fs, &temp_path, "");
    stage_remove_file(&mut cx, "c", "foo").ok().unwrap();
    commit(&mut cx);
    assert!(!cx.fs.is_file(&filepath));
}

#[test]
fn remove_file_then_rollback() {
    let mut cx = context();
    let filepath = in_prefix(&cx, "foo");
    let temp_path = dest_abs_path(&mut cx, "foo");
    write(&mut cx.fs, &temp_path, "");
    stage_remove_file(&mut cx, "c", "foo").ok().unwrap();
    rollback(&mut cx);
    assert!(!cx.fs.is_file(&filepath));
}

#[test]
fn remove_file_that_not_exists() {
    let mut cx = context();
    match stage_remove_file(&mut cx, "c", "foo") {
        Err(TxError::ComponentMissingFile { name, path }) => {
            assert_eq!(name, "c");
            assert_eq!(path.components(), p("foo").components());
            assert!(!path.is_absolute());
        }
        _ => panic!(),
    }
}

#[test]
fn remove_dir() {
    let mut cx = context();
    let filepath = in_prefix(&cx, "foo/bar");
    let temp_path = dest_abs_path(&mut cx, "foo/bar");
    write(&mut cx.fs, &temp_path, "");
    stage_remove_dir(&mut cx, "c", "foo").ok().unwrap();
    commit(&mut cx);
    assert!(!cx.fs.path_exists(&filepath.parent().unwrap()));
}

#[test]
fn remove_dir_then_rollback() {
    let mut cx = context();
    let filepath = in_prefix(&cx, "foo/bar");
    let temp_path = dest_abs_path(&mut cx, "foo/bar");
    write(&mut cx.fs, &temp_path, "");
    stage_remove_dir(&mut cx, "c", "foo").ok().unwrap();
    rollback(&mut cx);
    assert!(!cx.fs.path_exists(&filepath.parent().unwrap()));
}

#[test]
fn remove_dir_that_not_exists() {
    let mut cx = context();
    match stage_remove_dir(&mut cx, "c", "foo") {
        Err(TxError::ComponentMissingDir { name, path }) => {
            assert_eq!(name, "c");
            assert_eq!(path.components(), p("foo").components());
            assert!(!path.is_absolute());
        }
        _ => panic!(),
    }
}

#[test]
fn write_file() {
    let mut cx = context();
    let content = "hi".to_string();
    let acts = cx.tx.write_file("c", &p("foo/bar"), content.clone());
    cx.fs.run(&acts).unwrap();
    commit(&mut cx);
    let path = in_prefix(&cx, "foo/bar");
    assert!(cx.fs.is_file(&path));
    let file_content = content_of(&cx.fs, &path).unwrap();
    assert_eq!(content, file_content);
}

#[test]
fn write_file_then_rollback() {
    let mut cx = context();
    let content = "hi".to_string();
    let acts = cx.tx.write_file("c", &p("foo/bar"), content);
    cx.fs.run(&acts).unwrap();
    rollback(&mut cx);
    assert!(!cx.fs.is_file(&in_prefix(&cx, "foo/bar")));
}

#[test]
fn write_file_that_exists() {
    let mut cx = context();
    let content = "hi".to_string();
    let temp_path = dest_abs_path(&mut cx, "a");
    write(&mut cx.fs, &temp_path, "old");
    let acts = cx.tx.write_file("c", &p("a"), content.clone());
    cx.fs.run(&acts).unwrap();
    commit(&mut cx);
    assert_eq!(content_of(&cx.fs, &in_prefix(&cx, "a")).unwrap(), content);
}

fn do_multiple_op_transaction(rollback_at_end: bool) {
    let mut cx = context();

    // copy_file
    let relpath1 = "bin/rustc";
    let relpath2 = "bin/cargo";
    // copy_dir
    let relpath4 = "doc/html/index.html";
    // modify_file
    let relpath5 = "lib/rustlib/components";
    // write_file
    let relpath6 = "lib/rustlib/rustc-manifest.in";
    // remove_file
    let relpath7 = "bin/oldrustc";
    // remove_dir
    let relpath8 = "olddoc/htm/index.html";

    let path1 = in_prefix(&cx, relpath1);
    let path2 = in_prefix(&cx, relpath2);
    let path4 = in_prefix(&cx, relpath4);
    let path5 = in_prefix(&cx, relpath5);
    let path6 = in_prefix(&cx, relpath6);
    let path7 = in_prefix(&cx, relpath7);
    let path8 = in_prefix(&cx, relpath8);

    let temp_path7 = dest_abs_path(&mut cx, relpath7);
    write(&mut cx.fs, &temp_path7, "");
    let temp_path8 = dest_abs_path(&mut cx, relpath8);
    write(&mut cx.fs, &temp_path8, "");

    let srcpath1 = in_pkg(&cx, relpath1);
    cx.fs
        .apply(&FsAction::EnsureDir { path: srcpath1.parent().unwrap() })
        .unwrap();
    write(&mut cx.fs, &srcpath1, "");
    let acts = cx.tx.copy_file("", &p(relpath1), &srcpath1);
    cx.fs.run(&acts).unwrap();

    let srcpath2 = in_pkg(&cx, relpath2);
    write(&mut cx.fs, &srcpath2, "");
    let acts = cx.tx.copy_file("", &p(relpath2), &srcpath2);
    cx.fs.run(&acts).unwrap();

    let srcpath4 = in_pkg(&cx, relpath4);
    cx.fs
        .apply(&FsAction::EnsureDir { path: srcpath4.parent().unwrap() })
        .unwrap();
    write(&mut cx.fs, &srcpath4, "");
    let doc = in_pkg(&cx, "doc");
    let acts = cx.tx.copy_dir("", &p("doc"), &doc);
    cx.fs.run(&acts).unwrap();

    let temp_path5 = dest_abs_path(&mut cx, relpath5);
    write(&mut cx.fs, &temp_path5, "");

    let acts = cx.tx.write_file("", &p(relpath6), "".to_string());
    cx.fs.run(&acts).unwrap();

    stage_remove_file(&mut cx, "", relpath7).ok().unwrap();

    stage_remove_dir(&mut cx, "", "olddoc").ok().unwrap();

    if !rollback_at_end {
        commit(&mut cx);

        assert!(cx.fs.path_exists(&path1));
        assert!(cx.fs.path_exists(&path2));
        assert!(cx.fs.path_exists(&path4));
        assert!(cx.fs.path_exists(&path5));
        assert!(cx.fs.path_exists(&path6));
        assert!(!cx.fs.path_exists(&path7));
        assert!(!cx.fs.path_exists(&path8));
    } else {
        rollback(&mut cx);

        assert!(!cx.fs.path_exists(&path1));
        assert!(!cx.fs.path_exists(&path2));
        assert!(!cx.fs.path_exists(&path4));
        assert!(!cx.fs.path_exists(&path5));
        assert!(!cx.fs.path_exists(&path6));
        assert!(!cx.fs.path_exists(&path7));
        assert!(!cx.fs.path_exists(&path8));
    }
}

#[test]
fn multiple_op_transaction() {
    do_multiple_op_transaction(false);
}

#[test]
fn multiple_op_transaction_then_rollback() {
    do_multiple_op_transaction(true);
}

// Even if one step fails to roll back, the rollback goes on with the others.
#[test]
fn rollback_failure_keeps_going() {
    let mut cx = context();
    for name in ["foo", "bar", "baz"] {
        let acts = cx.tx.add_file("", &p(name));
        cx.fs.run(&acts).unwrap();
    }
    let bar = dest_abs_path(&mut cx, "bar");
    cx.fs.apply(&FsAction::RemoveFile { path: bar }).unwrap();

    // The staged reference is gone too, so its removal fails first.
    let staged_ref = p("/work/tmp/stable-ref");
    cx.fs.apply(&FsAction::RemoveFile { path: staged_ref }).unwrap();
    let acts = cx.tx.rollback_actions();
    assert_eq!(cx.fs.run_all(&acts), 1);

    assert!(!cx.fs.path_exists(&in_prefix(&cx, "foo")));
    assert!(!cx.fs.path_exists(&in_prefix(&cx, "baz")));
    assert!(!cx.fs.path_exists(&p("/work/tmp/prefix-obj/foo")));
}

#[test]
fn commit_moves_reference_into_place() {
    let mut cx = context();
    commit(&mut cx);
    match cx.fs.node_at(&p("/work/toolchains/stable")) {
        Some(Node::Link { target }) => assert_eq!(target, "../toolchains/prefix"),
        _ => panic!(),
    }
    assert!(!cx.fs.path_exists(&p("/work/tmp/stable-ref")));
    assert!(!cx.fs.path_exists(&p("/work/tmp/prefix-obj")));
    assert_eq!(cx.tx.rollback_actions().len(), 0);
}

#[test]
fn transaction_on_modified_installation_starts_from_copy() {
    let mut fs = FsModel::new();
    for dir in ["/work/old/bin", "/work/tmp", "/work/toolchains", "/work/heap"] {
        fs.apply(&FsAction::EnsureDir { path: p(dir) }).unwrap();
    }
    write(&mut fs, &p("/work/old/bin/rustc"), "old rustc");
    let prefix = InstallPrefixWithOrigin {
        dest: InstallPrefix::from_path(p("/work/heap/stable-B")),
        orig: Some(InstallPrefix::from_path(p("/work/old"))),
    };
    let (mut tx, setup) = Transaction::new(
        p("/work/toolchains/stable"),
        prefix,
        p("/work/tmp/obj"),
        p("/work/tmp/ref"),
        true,
    )
    .ok()
    .unwrap();
    fs.run(&setup).unwrap();
    let acts = tx.commit_actions();
    fs.run(&acts).unwrap();
    tx.mark_committed();
    assert_eq!(
        content_of(&fs, &p("/work/heap/stable-B/bin/rustc")).unwrap(),
        "old rustc"
    );
    assert!(fs.is_file(&p("/work/old/bin/rustc")));
}

#[test]
fn transaction_needs_named_paths() {
    let prefix = InstallPrefixWithOrigin {
        dest: InstallPrefix::from_path(p("/work/prefix")),
        orig: None,
    };
    assert!(matches!(
        Transaction::new(p("/"), prefix, p("/t/o"), p("/t/r"), false),
        Err(TxError::NoReferenceName)
    ));
    let prefix = InstallPrefixWithOrigin {
        dest: InstallPrefix::from_path(p("/work/..")),
        orig: None,
    };
    assert!(matches!(
        Transaction::new(p("/work/toolchains/x"), prefix, p("/t/o"), p("/t/r"), false),
        Err(TxError::NoObjectName)
    ));
}

#[test]
fn staged_changes_stay_out_of_prefix_until_commit() {
    let mut cx = context();
    let keep = in_prefix(&cx, "keep");
    write(&mut cx.fs, &keep, "kept");
    let acts = cx.tx.write_file("c", &p("bin/tool"), "new".to_string());
    cx.fs.run(&acts).unwrap();
    let src = in_pkg(&cx, "lib.so");
    write(&mut cx.fs, &src, "so");
    let acts = cx.tx.move_file("c", &p("lib/lib.so"), &src);
    cx.fs.run(&acts).unwrap();
    // the move took the file out of the package directory, into the staging
    assert!(!cx.fs.path_exists(&src));
    assert!(cx.fs.is_file(&p("/work/tmp/prefix-obj/lib/lib.so")));
    // nothing reached the prefix, whose content is untouched
    assert!(!cx.fs.path_exists(&in_prefix(&cx, "bin/tool")));
    assert!(!cx.fs.path_exists(&in_prefix(&cx, "lib/lib.so")));
    assert_eq!(content_of(&cx.fs, &keep).unwrap(), "kept");
    rollback(&mut cx);
    assert_eq!(content_of(&cx.fs, &keep).unwrap(), "kept");
    assert!(!cx.fs.path_exists(&p("/work/tmp/prefix-obj")));
    assert!(!cx.fs.path_exists(&p("/work/tmp/stable-ref")));
    assert!(!cx.fs.path_exists(&p("/work/toolchains/stable")));
}

#[test]
fn commit_onto_a_non_empty_prefix_fails() {
    let mut cx = context();
    let keep = in_prefix(&cx, "keep");
    write(&mut cx.fs, &keep, "kept");
    let acts = cx.tx.commit_actions();
    assert_eq!(cx.fs.run(&acts), Err(0));
    rollback(&mut cx);
    assert!(cx.fs.is_file(&keep));
}

#[test]
fn move_dir_moves_everything() {
    let mut cx = context();
    fill_pkg_dir(&mut cx);
    let bar = in_pkg(&cx, "bar");
    let acts = cx.tx.move_dir("c", &p("share/bar"), &bar);
    cx.fs.run(&acts).unwrap();
    commit(&mut cx);
    assert!(cx.fs.is_file(&in_prefix(&cx, "share/bar/qux/tickle")));
    assert!(!cx.fs.path_exists(&bar));
    assert!(cx.fs.is_file(&in_pkg(&cx, "foo")));
}

#[test]
fn transaction_copy_file_preserves_symlinks() {
    let mut cx = context();
    let real = in_pkg(&cx, "real_file.txt");
    write(&mut cx.fs, &real, "content");
    let link = in_pkg(&cx, "link.txt");
    cx.fs
        .apply(&FsAction::SymlinkDir {
            target: "real_file.txt".to_string(),
            link: link.duplicate(),
        })
        .unwrap();
    let acts = cx.tx.copy_file("test-component", &p("copied_link.txt"), &link);
    cx.fs.run(&acts).unwrap();
    commit(&mut cx);
    match cx.fs.node_at(&in_prefix(&cx, "copied_link.txt")) {
        Some(Node::Link { target }) => assert_eq!(target, "real_file.txt"),
        _ => panic!("Transaction::copy_file should preserve symlinks"),
    }
}

#[test]
fn commit_actions_carry_the_copy_permission() {
    for permit in [false, true] {
        let prefix = InstallPrefixWithOrigin {
            dest: InstallPrefix::from_path(p("/work/prefix")),
            orig: None,
        };
        let (tx, _setup) = Transaction::new(
            p("/work/toolchains/stable"),
            prefix,
            p("/work/tmp/obj"),
            p("/work/tmp/ref"),
            permit,
        )
        .ok()
        .unwrap();
        let acts = tx.commit_actions();
        assert_eq!(acts.len(), 2);
        for a in &acts {
            match a {
                FsAction::Rename { permit_copy, .. } => assert_eq!(*permit_copy, permit),
                _ => panic!("commit moves things"),
            }
        }
    }
}

#[test]
fn fresh_staging_starts_empty() {
    let cx = context();
    let staging = p("/work/tmp/prefix-obj");
    assert!(matches!(cx.fs.node_at(&staging), Some(Node::Dir)));
    assert!(!cx.fs.path_exists(&p("/work/tmp/prefix-obj/foo")));
    match cx.fs.node_at(&p("/work/tmp/stable-ref")) {
        Some(Node::Link { target }) => assert_eq!(target, "../toolchains/prefix"),
        _ => panic!("the staged reference is a link"),
    }
}
