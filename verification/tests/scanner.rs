use tcloc::lang::Lang;
use tcloc::path::FilePath;
use tcloc::scanner::{
    admits, classify, count, count_bytes, git_paths, visit, ScanConfig, VcsMode, Visit,
};

fn path(s: &str) -> FilePath {
    FilePath::from_text(s)
}

fn texts(v: &[&str]) -> Vec<String> {
    v.iter().map(|s| s.to_string()).collect()
}

fn config() -> ScanConfig {
    ScanConfig {
        root: path("/r"),
        vcs: VcsMode::Walk,
        threads: 2,
        max_file_size: 100,
        exclude_dirs: texts(&[]),
        include_dirs: texts(&[]),
        exclude_exts: texts(&[]),
        include_exts: texts(&[]),
        exclude_langs: texts(&[]),
        include_langs: texts(&[]),
        follow_links: false,
        hidden: false,
        no_ignore: false,
    }
}

#[test]
fn lines_are_counted() {
    assert_eq!(count_bytes(b""), Some(0));
    assert_eq!(count_bytes(b"a"), Some(1));
    assert_eq!(count_bytes(b"a\n"), Some(1));
    assert_eq!(count_bytes(b"a\nb"), Some(2));
    assert_eq!(count_bytes(b"\n\n\n"), Some(3));
    assert_eq!(count_bytes(b"a\r\nb\r\n"), Some(2));
    assert_eq!(count_bytes(b"a\0b\n"), None);
}

#[test]
fn only_the_start_is_searched_for_zeros() {
    let mut long = vec![b'x'; 8192];
    long.push(0);
    assert_eq!(count_bytes(&long), Some(1));
    long[8191] = 0;
    assert_eq!(count_bytes(&long), None);
}

#[test]
fn many_lines_are_counted() {
    let text: Vec<u8> = (0..100_000u32).map(|i| if i % 7 == 0 { b'\n' } else { b'a' }).collect();
    let want = text.iter().filter(|b| **b == b'\n').count() as u64 + 1;
    assert_eq!(count_bytes(&text), Some(want));
}

#[test]
fn lines_add_up() {
    let a: &[u8] = b"one\ntwo\n";
    let b: &[u8] = b"three\nfour";
    let both: Vec<u8> = [a, b].concat();
    assert_eq!(count_bytes(a).unwrap() + count_bytes(b).unwrap(), count_bytes(&both).unwrap());
}

#[test]
fn large_files_do_not_count() {
    assert!(admits(100, 100) && !admits(101, 100) && admits(u64::MAX, 0));
    assert_eq!(count(101, 100, b"a\n"), None);
    assert_eq!(count(2, 100, b"a\n"), Some((1, 2)));
    assert_eq!(count(0, 100, b""), Some((0, 0)));
    assert_eq!(count(5000, 0, b"a\nb"), Some((2, 3)));
    assert_eq!(count(3, 100, b"a\0b"), None);
}

#[test]
fn files_are_classified() {
    let cfg = config();
    assert_eq!(classify(&path("/r/a.rs"), &cfg), Some(Lang("Rust")));
    assert_eq!(classify(&path("/r/a.none"), &cfg), None);

    let mut cfg = config();
    cfg.include_exts = texts(&["go", "rs"]);
    cfg.exclude_exts = texts(&["go"]);
    assert_eq!(classify(&path("/r/a.RS"), &cfg), Some(Lang("Rust")));
    assert_eq!(classify(&path("/r/a.go"), &cfg), None);
    assert_eq!(classify(&path("/r/a.py"), &cfg), None);
    assert_eq!(classify(&path("/r/Makefile"), &cfg), None);

    let mut cfg = config();
    cfg.include_langs = texts(&["Rust", "Go"]);
    cfg.exclude_langs = texts(&["Go"]);
    assert_eq!(classify(&path("/r/a.rs"), &cfg), Some(Lang("Rust")));
    assert_eq!(classify(&path("/r/a.go"), &cfg), None);
    assert_eq!(classify(&path("/r/a.py"), &cfg), None);
}

#[test]
fn only_included_folders_count() {
    let mut cfg = config();
    cfg.include_dirs = texts(&["src"]);
    assert_eq!(classify(&path("/r/src/a.rs"), &cfg), Some(Lang("Rust")));
    assert_eq!(classify(&path("/r/src/x/a.rs"), &cfg), Some(Lang("Rust")));
    assert_eq!(classify(&path("/r/lib/a.rs"), &cfg), None);
    assert_eq!(classify(&path("/r/top.rs"), &cfg), Some(Lang("Rust")));
    assert_eq!(classify(&path("/else/a.rs"), &cfg), Some(Lang("Rust")));
    assert_eq!(classify(&FilePath { bytes: b"/r/\xff/a.rs".to_vec() }, &cfg), None);
}

#[test]
fn the_walk_skips_folders() {
    let mut cfg = config();
    cfg.exclude_dirs = texts(&["target"]);
    cfg.include_dirs = texts(&["src", "target"]);
    assert_eq!(visit(&path("/r/target"), true, false, 1, &cfg), Visit::Skip);
    assert_eq!(visit(&path("/r/src"), true, false, 1, &cfg), Visit::Continue);
    assert_eq!(visit(&path("/r/docs"), true, false, 1, &cfg), Visit::Skip);
    assert_eq!(visit(&path("/r/src/docs"), true, false, 2, &cfg), Visit::Continue);
    assert_eq!(visit(&path("/r/src/target"), true, false, 2, &cfg), Visit::Skip);
    assert_eq!(visit(&path("/r/a.rs"), false, true, 1, &cfg), Visit::Process);
    assert_eq!(visit(&path("/r/pipe"), false, false, 1, &cfg), Visit::Continue);
}

fn listed(stdout: &[u8], cfg: &ScanConfig) -> Vec<String> {
    git_paths(stdout, cfg).iter().map(|p| p.display()).collect()
}

#[test]
fn the_list_of_git_is_read() {
    let cfg = config();
    assert_eq!(listed(b"a.rs\0src/b.rs\0", &cfg), ["/r/a.rs", "/r/src/b.rs"]);
    assert_eq!(listed(b"a.rs\0\0b.rs", &cfg), ["/r/a.rs", "/r/b.rs"]);
    assert_eq!(listed(b"", &cfg), Vec::<String>::new());
    assert_eq!(listed(b"a\xff.rs\0b.rs\0", &cfg), ["/r/b.rs"]);
}

#[test]
fn the_list_of_git_keeps_included_folders() {
    let mut cfg = config();
    cfg.include_dirs = texts(&["src"]);
    assert_eq!(
        listed(b"top.rs\0src/b.rs\0lib/c.rs\0", &cfg),
        ["/r/top.rs", "/r/src/b.rs"]
    );
    assert_eq!(classify(&path("/r/lib/c.rs"), &cfg), None);
}

#[test]
fn files_in_excluded_folders_do_not_count() {
    let mut cfg = config();
    cfg.exclude_dirs = texts(&["target", "node_modules"]);
    assert_eq!(classify(&path("/r/target/a.rs"), &cfg), None);
    assert_eq!(classify(&path("/r/x/node_modules/y/a.rs"), &cfg), None);
    assert_eq!(classify(&path("/r/x/a.rs"), &cfg), Some(Lang("Rust")));
    assert_eq!(classify(&path("/r/target.rs"), &cfg), Some(Lang("Rust")));
    assert_eq!(classify(&path("/target/a.rs"), &cfg), Some(Lang("Rust")));
    cfg.exclude_dirs = texts(&["Makefile", "r"]);
    assert_eq!(classify(&path("/r/Makefile"), &cfg), Some(Lang("Make")));
    assert_eq!(classify(&path("/r/a.rs"), &cfg), Some(Lang("Rust")));
}

#[test]
fn the_list_of_git_leaves_out_excluded_folders() {
    let mut cfg = config();
    cfg.exclude_dirs = texts(&["vendor"]);
    assert_eq!(
        listed(b"a.rs\0vendor/b.rs\0src/vendor/c.rs\0src/vendor.rs\0", &cfg),
        ["/r/a.rs", "/r/src/vendor.rs"]
    );
}
