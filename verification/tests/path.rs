use tcloc::path::FilePath;
use tcloc::path_table::PathTable;

fn path(s: &str) -> FilePath {
    FilePath::from_text(s)
}

fn text(p: Option<FilePath>) -> Option<String> {
    p.map(|p| p.display())
}

#[test]
fn paths_as_the_system_takes_them_apart() {
    let all = [
        "", "/", "a", "/a", "a/b", "/a/b/", "a//b", "./a", "a/./b", "..", "a/..", ".a", "a.", "a.b",
        ".a.b", "a.b.c", "/a/.b", "a/b.rs/", "...", "a/...", "é/ü.rs",
    ];
    for s in all {
        let p = path(s);
        let q = std::path::Path::new(s);
        let name = q.file_name().map(|n| n.to_str().unwrap().as_bytes());
        assert_eq!(p.file_name(), name, "{s}");
        let ext = q.extension().map(|n| n.to_str().unwrap().as_bytes());
        assert_eq!(p.extension(), ext, "{s}");
        let parent = q.parent().map(|n| n.to_str().unwrap().to_string());
        assert_eq!(text(p.parent()), parent, "{s}");
        for t in all {
            let r = std::path::Path::new(t);
            assert_eq!(p.same(&path(t)), q == r, "{s} {t}");
            let stripped = q.strip_prefix(r).ok().map(|n| n.to_str().unwrap().to_string());
            assert_eq!(text(p.strip_prefix(&path(t))), stripped, "{s} {t}");
            let joined = q.join(r);
            assert_eq!(p.join(t.as_bytes()).display(), joined.to_str().unwrap(), "{s} {t}");
        }
        assert_eq!(p.display(), s);
    }
}

#[test]
fn bytes_that_are_no_text_are_replaced() {
    let p = FilePath { bytes: vec![b'a', 0xff, b'/', b'b'] };
    assert_eq!(p.display(), "a\u{fffd}/b");
    assert_eq!(p.segments(), ["a\u{fffd}", "b"]);
}

#[test]
fn table_finds_what_was_put_in() {
    let mut t: PathTable<u64> = PathTable::new();
    assert_eq!(t.get(&path("/a")), None);
    t.insert(&path("/a"), 1);
    t.insert(&path("/b/c"), 2);
    t.insert(&path("b/c"), 3);
    assert_eq!(t.get(&path("/a")), Some(1));
    assert_eq!(t.get(&path("/b//c/")), Some(2));
    assert_eq!(t.get(&path("b/c")), Some(3));
    t.insert(&path("/a/"), 4);
    assert_eq!(t.get(&path("/a")), Some(4));
    t.remove(&path("/nothing"));
    t.remove(&path("/a"));
    assert_eq!(t.get(&path("/a")), None);
    assert_eq!(t.get(&path("/b/c")), Some(2));
    assert_eq!(t.get(&path("b/c")), Some(3));
}

#[test]
fn table_with_many_paths() {
    let mut t: PathTable<u64> = PathTable::new();
    for i in 0..500u64 {
        t.insert(&path(&format!("/d{}/f{}", i % 10, i)), i);
    }
    for i in (0..500u64).step_by(3) {
        t.remove(&path(&format!("/d{}/f{}", i % 10, i)));
    }
    for i in 0..500u64 {
        let want = if i % 3 == 0 { None } else { Some(i) };
        assert_eq!(t.get(&path(&format!("/d{}/f{}", i % 10, i))), want);
    }
}
