use tcloc::lang::Lang;
use tcloc::path::FilePath;
use tcloc::scanner::{ScanConfig, ScanEvent, Stamp, VcsMode};
use tcloc::time::Span;
use tcloc::watcher::{
    bucket, look, note_scan, note_watch, outcome, unchanged, workers, CachedMeta, Change,
    ChangeKind, Look, MetaCache, WatchEvent,
};

fn path(s: &str) -> FilePath {
    FilePath::from_text(s)
}

fn change(p: &str, kind: ChangeKind) -> Change {
    Change { path: path(p), is_dir: false, kind }
}

fn jobs(changes: Vec<Change>) -> Vec<(String, ChangeKind)> {
    bucket(&changes).iter().map(|j| (j.0.display(), j.1)).collect()
}

#[test]
fn each_path_is_looked_at_once() {
    let got = jobs(vec![
        change("/a", ChangeKind::Touched),
        change("/b", ChangeKind::Touched),
        change("/a", ChangeKind::Removed),
        change("/b", ChangeKind::Touched),
        change("/a", ChangeKind::Touched),
        change("/c", ChangeKind::Removed),
        change("/c", ChangeKind::Touched),
        change("//b/", ChangeKind::Touched),
    ]);
    assert_eq!(
        got,
        [
            ("/a".to_string(), ChangeKind::Touched),
            ("/b".to_string(), ChangeKind::Touched),
            ("/c".to_string(), ChangeKind::Touched),
        ]
    );
}

#[test]
fn the_last_change_of_a_batch_counts() {
    let got = jobs(vec![
        change("/r/back.rs", ChangeKind::Removed),
        change("/r/gone.rs", ChangeKind::Touched),
        change("/r/back.rs", ChangeKind::Touched),
        change("/r/gone.rs", ChangeKind::Removed),
    ]);
    assert_eq!(
        got,
        [
            ("/r/back.rs".to_string(), ChangeKind::Touched),
            ("/r/gone.rs".to_string(), ChangeKind::Removed),
        ]
    );
    let cfg = config();
    assert!(matches!(look(&path(&got[0].0), got[0].1, &cfg), Look::Counts(Lang("Rust"))));
    assert!(matches!(look(&path(&got[1].0), got[1].1, &cfg), Look::Gone));
}

#[test]
fn changes_in_excluded_folders_are_ignored() {
    let mut cfg = config();
    cfg.exclude_dirs = vec!["target".to_string()];
    let seen = |p: &str| look(&path(p), ChangeKind::Touched, &cfg);
    assert!(matches!(seen("/r/target/a.rs"), Look::Ignore));
    assert!(matches!(seen("/r/x/target/y/a.rs"), Look::Ignore));
    assert!(matches!(seen("/r/targets/a.rs"), Look::Counts(Lang("Rust"))));
    assert!(matches!(look(&path("/r/target/a.rs"), ChangeKind::Removed, &cfg), Look::Gone));
}

#[test]
fn folders_are_left_out() {
    let dir = Change { path: path("/d"), is_dir: true, kind: ChangeKind::Touched };
    assert_eq!(jobs(vec![dir, change("/d/f", ChangeKind::Touched)]).len(), 1);
    assert!(jobs(vec![]).is_empty());
}

#[test]
fn the_work_is_shared() {
    assert_eq!(workers(8, 3), 3);
    assert_eq!(workers(2, 300), 2);
    assert_eq!(workers(0, 5), 1);
    assert_eq!(workers(4, 0), 0);
}

fn config() -> ScanConfig {
    ScanConfig {
        root: path("/r"),
        vcs: VcsMode::Walk,
        threads: 2,
        max_file_size: 100,
        exclude_dirs: vec![],
        include_dirs: vec![],
        exclude_exts: vec!["go".to_string()],
        include_exts: vec![],
        exclude_langs: vec![],
        include_langs: vec![],
        follow_links: false,
        hidden: false,
        no_ignore: false,
    }
}

#[test]
fn a_first_look() {
    let cfg = config();
    assert!(matches!(look(&path("/r/a.rs"), ChangeKind::Removed, &cfg), Look::Gone));
    assert!(matches!(look(&path("/r/a.go"), ChangeKind::Touched, &cfg), Look::Ignore));
    assert!(matches!(look(&path("/r/a.rs"), ChangeKind::Touched, &cfg), Look::Counts(Lang("Rust"))));
}

#[test]
fn files_that_did_not_change() {
    let t = |secs: i64| Some(Stamp { secs, nanos: 5 });
    let a = CachedMeta { mtime: t(1), bytes: 10 };
    assert!(unchanged(Some(a), Some(a)));
    assert!(!unchanged(Some(a), Some(CachedMeta { mtime: t(2), bytes: 10 })));
    assert!(!unchanged(Some(a), Some(CachedMeta { mtime: t(1), bytes: 11 })));
    assert!(!unchanged(Some(a), Some(CachedMeta { mtime: None, bytes: 10 })));
    assert!(!unchanged(None, Some(a)));
    assert!(!unchanged(Some(a), None));
    assert!(!unchanged(None, None));
    let untimed = CachedMeta { mtime: None, bytes: 3 };
    assert!(unchanged(Some(untimed), Some(untimed)));
}

#[test]
fn what_is_reported() {
    match outcome(path("/r/a.rs"), Lang("Rust"), Some((3, 30)), None) {
        WatchEvent::Upsert { path, lang, lines, bytes, mtime } => {
            assert_eq!(path.display(), "/r/a.rs");
            assert_eq!((lang, lines, bytes, mtime), (Lang("Rust"), 3, 30, None));
        }
        _ => panic!(),
    }
    match outcome(path("/r/a.rs"), Lang("Rust"), None, None) {
        WatchEvent::Remove { path } => assert_eq!(path.display(), "/r/a.rs"),
        _ => panic!(),
    }
}

#[test]
fn what_files_were_like_is_remembered() {
    let mut m: MetaCache = MetaCache::new();
    let t = Some(Stamp { secs: 9, nanos: 1 });
    note_scan(
        &mut m,
        &ScanEvent::File {
            path: path("/r/a.rs"),
            lang: Lang("Rust"),
            lines: 1,
            bytes: 10,
            mtime: t,
            count_nanos: 3,
        },
    );
    note_scan(&mut m, &ScanEvent::Done { at: Span::zero() });
    assert_eq!(m.get(&path("/r/a.rs")), Some(CachedMeta { mtime: t, bytes: 10 }));
    let upsert = WatchEvent::Upsert {
        path: path("/r/a.rs"),
        lang: Lang("Rust"),
        lines: 2,
        bytes: 20,
        mtime: t,
    };
    note_watch(&mut m, &upsert);
    let now = m.get(&path("/r/a.rs"));
    assert!(unchanged(now, Some(CachedMeta { mtime: t, bytes: 20 })));
    note_watch(&mut m, &WatchEvent::BatchDone);
    note_watch(&mut m, &WatchEvent::Remove { path: path("/r/a.rs") });
    assert_eq!(m.get(&path("/r/a.rs")), None);
}
