use tcloc::lang::Lang;
use tcloc::path::FilePath;
use tcloc::tree::{collect_files, insert, remove, resolve, FileNode, FolderNode, Node};

fn path(s: &str) -> FilePath {
    FilePath::from_text(s)
}

fn fake(p: &str, lang: &'static str, lines: u64) -> (FilePath, Lang, u64) {
    (path(p), Lang(lang), lines)
}

#[test]
fn insert_builds_nested_folders() {
    let mut root = FolderNode::default();
    let base = path("/r");
    let (p, l, n) = fake("/r/a/b/c.rs", "Rust", 10);
    insert(&mut root, &base, p, l, n);
    let (p, l, n) = fake("/r/a/b/d.rs", "Rust", 20);
    insert(&mut root, &base, p, l, n);
    let (p, l, n) = fake("/r/a/e.go", "Go", 5);
    insert(&mut root, &base, p, l, n);

    assert_eq!(root.total_files, 3);
    assert_eq!(root.total_lines, 35);

    let a = match root.children.get("a").unwrap() {
        Node::Folder(f) => f,
        _ => panic!(),
    };
    assert_eq!(a.total_files, 3);
    assert_eq!(a.total_lines, 35);
    assert_eq!(a.dominant_lang(), Some(Lang("Rust")));

    let b = match a.children.get("b").unwrap() {
        Node::Folder(f) => f,
        _ => panic!(),
    };
    assert_eq!(b.total_files, 2);
    assert_eq!(b.total_lines, 30);
}

#[test]
fn resolve_walks_to_folder() {
    let mut root = FolderNode::default();
    let base = path("/r");
    insert(&mut root, &base, path("/r/x/y/f.rs"), Lang("Rust"), 1);

    let r = resolve(&root, &["x".into(), "y".into()]).unwrap();
    assert_eq!(r.total_files, 1);

    // resolve into a file path returns None.
    assert!(resolve(&root, &["x".into(), "y".into(), "f.rs".into()]).is_none());
}

#[test]
fn collect_files_recurses() {
    let mut root = FolderNode::default();
    let base = path("/r");
    insert(&mut root, &base, path("/r/a.rs"), Lang("Rust"), 1);
    insert(&mut root, &base, path("/r/sub/b.rs"), Lang("Rust"), 2);
    insert(&mut root, &base, path("/r/empty.rs"), Lang("Rust"), 0);

    let mut out: Vec<&FileNode> = Vec::new();
    collect_files(&root, &mut out);
    // Empty files (lines == 0) are skipped.
    assert_eq!(out.len(), 2);
}

#[test]
fn insert_outside_the_root_keeps_all_names() {
    let mut root = FolderNode::default();
    insert(&mut root, &path("/r"), path("/other/f.c"), Lang("C"), 3);
    assert_eq!(root.total_lines, 3);
    let mut out: Vec<&FileNode> = Vec::new();
    collect_files(&root, &mut out);
    assert_eq!(out.len(), 1);
    assert_eq!(out[0].lines, 3);
}

#[test]
fn insert_of_the_root_itself_does_nothing() {
    let mut root = FolderNode::default();
    insert(&mut root, &path("/r"), path("/r"), Lang("C"), 3);
    assert_eq!(root.total_lines, 0);
    assert_eq!(root.children.entries.len(), 0);
}

#[test]
fn children_stand_in_the_order_of_their_names() {
    let mut root = FolderNode::default();
    let base = path("/r");
    for name in ["/r/m.rs", "/r/a.rs", "/r/Z.rs", "/r/é.rs", "/r/b/x.rs"] {
        insert(&mut root, &base, path(name), Lang("Rust"), 1);
    }
    let names: Vec<&str> = root.children.entries.iter().map(|e| e.0.as_str()).collect();
    assert_eq!(names, ["Z.rs", "a.rs", "b", "m.rs", "é.rs"]);
    assert!(root.children.get("nothing").is_none());
}

#[test]
fn dominant_language_needs_files() {
    assert_eq!(FolderNode::default().dominant_lang(), None);
    let mut root = FolderNode::default();
    let base = path("/r");
    insert(&mut root, &base, path("/r/a.go"), Lang("Go"), 4);
    insert(&mut root, &base, path("/r/b.rs"), Lang("Rust"), 3);
    insert(&mut root, &base, path("/r/c.rs"), Lang("Rust"), 3);
    assert_eq!(root.dominant_lang(), Some(Lang("Rust")));
}

#[test]
fn removing_undoes_inserting() {
    let mut root = FolderNode::default();
    let base = path("/r");
    insert(&mut root, &base, path("/r/a/b.rs"), Lang("Rust"), 4);
    insert(&mut root, &base, path("/r/a/c/d.go"), Lang("Go"), 6);
    assert_eq!((root.total_files, root.total_lines), (2, 10));

    remove(&mut root, &base, &path("/r/a/c/d.go"));
    assert_eq!((root.total_files, root.total_lines), (1, 4));
    assert!(resolve(&root, &["a".into(), "c".into()]).is_none());
    assert_eq!(root.dominant_lang(), Some(Lang("Rust")));

    remove(&mut root, &base, &path("/r/a/none.rs"));
    remove(&mut root, &base, &path("/r/a"));
    assert_eq!((root.total_files, root.total_lines), (1, 4));

    remove(&mut root, &base, &path("/r/a/b.rs"));
    assert_eq!((root.total_files, root.total_lines), (0, 0));
    assert_eq!(root.children.entries.len(), 0);
}

#[test]
fn collected_files_have_all_lines() {
    let mut root = FolderNode::default();
    let base = path("/r");
    for i in 0..40u64 {
        let name = format!("/r/d{}/f{}.rs", i % 7, i);
        insert(&mut root, &base, path(&name), Lang("Rust"), i);
    }
    let mut out: Vec<&FileNode> = Vec::new();
    collect_files(&root, &mut out);
    assert_eq!(out.len(), 39);
    assert_eq!(out.iter().map(|f| f.lines).sum::<u64>(), root.total_lines);
    assert_eq!(root.total_lines, 780);
}

#[test]
fn languages_are_counted_folder_by_folder() {
    let mut root = FolderNode::default();
    let base = path("/r");
    for (p, l, n) in [
        fake("/r/a/x.rs", "Rust", 10),
        fake("/r/a/b/y.go", "Go", 7),
        fake("/r/a/b/z.go", "Go", 9),
        fake("/r/w.rs", "Rust", 3),
        fake("/r/a/b/\u{e9}.rs", "Rust", 0),
    ] {
        insert(&mut root, &base, p, l, n);
    }
    let of = |f: &FolderNode, l: &'static str| {
        let all: Vec<u64> = f.lang_lines.iter().filter(|e| e.0 == Lang(l)).map(|e| e.1).collect();
        assert!(all.len() <= 1);
        all.first().copied().unwrap_or(0)
    };
    assert_eq!((of(&root, "Rust"), of(&root, "Go")), (13, 16));
    assert_eq!(root.dominant_lang(), Some(Lang("Go")));
    let a = resolve(&root, &["a".into()]).unwrap();
    assert_eq!((of(a, "Rust"), of(a, "Go"), a.total_files), (10, 16, 4));
    let b = resolve(&root, &["a".into(), "b".into()]).unwrap();
    assert_eq!((of(b, "Rust"), of(b, "Go"), b.total_files), (0, 16, 3));
    assert!(b.children.get("\u{e9}.rs").is_some());
}
