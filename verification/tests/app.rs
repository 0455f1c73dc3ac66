use tcloc::app::{App, NavDir, TileTarget};
use tcloc::grid::Rect;
use tcloc::lang::Lang;
use tcloc::path::FilePath;
use tcloc::time::Span;
use tcloc::view::View;

fn path(s: &str) -> FilePath {
    FilePath::from_text(s)
}

fn at(ms: u64) -> Span {
    Span::from_nanos(ms * 1_000_000)
}

fn app() -> App {
    App::new(path("/r"), at(0))
}

fn sample() -> App {
    let mut a = app();
    a.record(path("/r/src/main.rs"), Lang("Rust"), 30, 300, 5);
    a.record(path("/r/src/lib.rs"), Lang("Rust"), 50, 500, 7);
    a.record(path("/r/docs/x.md"), Lang("Markdown"), 20, 100, 1);
    a.record(path("/r/top.go"), Lang("Go"), 60, 600, 2);
    a
}

fn names(t: &TileTarget) -> String {
    match t {
        TileTarget::Folder(n) => n.join("/"),
        TileTarget::File(p) => p.display(),
    }
}

fn selected(a: &App) -> Option<String> {
    a.selected.as_ref().map(names)
}

#[test]
fn files_are_recorded() {
    let a = sample();
    assert_eq!((a.total_files, a.total_lines, a.total_bytes), (4, 160, 1500));
    assert_eq!((a.tree.total_files, a.tree.total_lines), (4, 160));
    assert_eq!(a.last_path.as_ref().unwrap().display(), "/r/top.go");
    let rust = a.stats.iter().find(|s| s.0 == Lang("Rust")).unwrap().1;
    assert_eq!((rust.files, rust.lines, rust.bytes), (2, 80, 800));
    assert!(a.stats_dirty && a.items_dirty && !a.done);
}

#[test]
fn empty_files_stay_out_of_the_tree() {
    let mut a = app();
    a.record(path("/r/e.rs"), Lang("Rust"), 0, 0, 1);
    assert_eq!((a.total_files, a.total_lines), (1, 0));
    assert_eq!(a.tree.total_files, 0);
}

#[test]
fn times_are_counted_only_for_benchmarks() {
    let a = sample();
    assert_eq!(a.bench.total_count_nanos, 0);
    let mut a = app();
    a.bench.enabled = true;
    a.record(path("/r/a.rs"), Lang("Rust"), 1, 1, 5);
    a.record(path("/r/b.rs"), Lang("Rust"), 1, 1, 3);
    a.record(path("/r/c.rs"), Lang("Rust"), 1, 1, 9);
    assert_eq!(a.bench.total_count_nanos, 17);
    assert_eq!((a.bench.min_count_nanos, a.bench.max_count_nanos), (3, 9));
}

#[test]
fn room_is_checked() {
    let mut a = app();
    assert!(a.fits(u64::MAX, u64::MAX, u64::MAX));
    a.record(path("/r/a.rs"), Lang("Rust"), 10, 10, 1);
    assert!(a.fits(u64::MAX - 10, u64::MAX - 10, 1));
    assert!(!a.fits(u64::MAX - 9, 0, 1));
    assert!(!a.fits(0, u64::MAX - 9, 1));
}

#[test]
fn entering_and_going_up() {
    let mut a = sample();
    assert!(!a.up());
    a.selected = Some(TileTarget::Folder(vec!["src".to_string()]));
    a.enter_selected();
    assert_eq!(a.current_path, ["src"]);
    assert_eq!(a.current_folder().total_lines, 80);
    assert_eq!(selected(&a).unwrap(), "/r/src/lib.rs");
    assert!(a.up());
    assert!(a.current_path.is_empty());
    assert!(a.selected.is_none());
}

#[test]
fn entering_a_file_does_nothing() {
    let mut a = sample();
    a.selected = Some(TileTarget::File(path("/r/top.go")));
    a.enter_selected();
    assert!(a.current_path.is_empty());
    assert_eq!(selected(&a).unwrap(), "/r/top.go");
}

#[test]
fn a_path_that_leads_nowhere_shows_the_root() {
    let mut a = sample();
    a.current_path = vec!["gone".to_string()];
    assert_eq!(a.current_folder().total_lines, 160);
}

#[test]
fn the_largest_item_is_first() {
    let mut a = sample();
    assert_eq!(a.first_visible_target().map(|t| names(&t)).unwrap(), "src");
    a.toggle_view();
    assert_eq!(a.view, View::Files);
    assert_eq!(a.first_visible_target().map(|t| names(&t)).unwrap(), "/r/top.go");
    assert!(app().first_visible_target().is_none());
    // Of equals, the last one.
    let mut a = app();
    a.record(path("/r/a.rs"), Lang("Rust"), 5, 1, 1);
    a.record(path("/r/b.rs"), Lang("Rust"), 5, 1, 1);
    assert_eq!(a.first_visible_target().map(|t| names(&t)).unwrap(), "/r/b.rs");
}

#[test]
fn views_cycle() {
    let mut a = app();
    assert_eq!(a.view, View::Tree);
    a.toggle_view();
    assert_eq!(a.view, View::Files);
    a.toggle_view();
    assert_eq!(a.view, View::Nested);
    a.toggle_view();
    assert_eq!(a.view, View::Tree);
}

fn tiled() -> App {
    let mut a = app();
    let tile = |name: &str| TileTarget::File(path(name));
    a.last_tiles = vec![
        (Rect::new(0, 0, 10, 10), tile("/r/a")),
        (Rect::new(0, 10, 10, 5), tile("/r/b")),
        (Rect::new(5, 10, 10, 5), tile("/r/c")),
        (Rect::new(10, 0, 20, 10), tile("/r/d")),
        (Rect::new(1, 11, 3, 3), tile("/r/e")),
    ];
    a
}

#[test]
fn navigation_takes_the_nearest_tile() {
    let mut a = tiled();
    a.navigate(NavDir::Right);
    assert_eq!(selected(&a).unwrap(), "/r/a");
    a.navigate(NavDir::Right);
    assert_eq!(selected(&a).unwrap(), "/r/b");
    a.navigate(NavDir::Down);
    assert_eq!(selected(&a).unwrap(), "/r/c");
    a.navigate(NavDir::Down);
    assert_eq!(selected(&a).unwrap(), "/r/d");
    a.navigate(NavDir::Down);
    assert_eq!(selected(&a).unwrap(), "/r/d");
    a.navigate(NavDir::Up);
    assert_eq!(selected(&a).unwrap(), "/r/a");
    a.navigate(NavDir::Left);
    assert_eq!(selected(&a).unwrap(), "/r/a");
}

#[test]
fn navigation_prefers_the_larger_of_two() {
    let mut a = app();
    let tile = |name: &str| TileTarget::File(path(name));
    a.last_tiles = vec![
        (Rect::new(0, 0, 10, 10), tile("/r/a")),
        (Rect::new(0, 10, 4, 4), tile("/r/small")),
        (Rect::new(0, 10, 8, 8), tile("/r/large")),
    ];
    a.selected = Some(tile("/r/a"));
    a.navigate(NavDir::Right);
    assert_eq!(selected(&a).unwrap(), "/r/large");
}

#[test]
fn navigation_without_tiles_or_with_a_lost_selection() {
    let mut a = app();
    a.navigate(NavDir::Left);
    assert!(a.selected.is_none());
    let mut a = tiled();
    a.selected = Some(TileTarget::File(path("/r/gone")));
    a.navigate(NavDir::Left);
    assert_eq!(selected(&a).unwrap(), "/r/a");
}

#[test]
fn a_click_hits_the_tile_on_top() {
    let a = tiled();
    assert_eq!(names(a.hit(12, 2).unwrap()), "/r/e");
    assert_eq!(names(a.hit(10, 0).unwrap()), "/r/b");
    assert_eq!(names(a.hit(0, 0).unwrap()), "/r/a");
    assert!(a.hit(20, 0).is_none());
    assert!(a.hit(0, 20).is_none());
}

#[test]
fn breadcrumbs_are_shortened() {
    let mut a = App::new(path("/home/me/code"), at(0));
    let parts = a.breadcrumb_parts(Some(&path("/home/me")));
    assert_eq!(parts, ("~/code".to_string(), String::new()));
    a.current_path = vec!["src".to_string(), "ui".to_string()];
    let parts = a.breadcrumb_parts(None);
    assert_eq!(parts, ("/home/me/code".to_string(), "/src/ui".to_string()));
    assert_eq!(a.breadcrumb_parts(Some(&path("/home/me/code"))).0, "~");
    assert_eq!(a.breadcrumb_parts(Some(&path("/home/you"))).0, "/home/me/code");
}

#[test]
fn the_first_end_counts() {
    let mut a = App::new(path("/r"), at(1000));
    assert_eq!(a.elapsed_secs(at(3500)).to_bits(), 2.5f64.to_bits());
    a.mark_done(at(2000));
    a.mark_done(at(9000));
    assert!(a.done);
    assert_eq!(a.finished_at, Some(at(2000)));
    assert_eq!(a.elapsed_secs(at(50_000)).to_bits(), 1.0f64.to_bits());
}

#[test]
fn languages_are_ranked() {
    let mut a = sample();
    a.ensure_ranked();
    let order: Vec<&str> = a.ranked().iter().map(|r| r.0 .0).collect();
    assert_eq!(order, ["Rust", "Go", "Markdown"]);
    assert!(!a.stats_dirty);
    a.record(path("/r/y.md"), Lang("Markdown"), 500, 1, 1);
    assert_eq!(a.ranked()[0].0, Lang("Rust"));
    a.ensure_ranked();
    assert_eq!(a.ranked()[0].0, Lang("Markdown"));
}

#[test]
fn changes_replace_what_was_counted() {
    let mut a = sample();
    a.watch_upsert(path("/r/src/main.rs"), Lang("Rust"), 35, 350);
    assert_eq!((a.total_files, a.total_lines, a.total_bytes), (4, 165, 1550));
    assert_eq!((a.tree.total_files, a.tree.total_lines), (4, 165));
    a.watch_upsert(path("/r/new.rs"), Lang("Rust"), 5, 50);
    assert_eq!((a.total_files, a.total_lines, a.total_bytes), (5, 170, 1600));
    // The language can change too.
    a.watch_upsert(path("/r/new.rs"), Lang("Go"), 6, 60);
    assert_eq!((a.total_files, a.total_lines, a.total_bytes), (5, 171, 1610));
    let go = a.stats.iter().find(|s| s.0 == Lang("Go")).unwrap().1;
    assert_eq!((go.files, go.lines), (2, 66));
}

#[test]
fn the_last_change_counts() {
    let mut once = sample();
    let mut twice = sample();
    twice.watch_upsert(path("/r/top.go"), Lang("Go"), 1, 1);
    twice.watch_upsert(path("/r/top.go"), Lang("Go"), 70, 7);
    once.watch_upsert(path("/r/top.go"), Lang("Go"), 70, 7);
    assert_eq!(twice.stats, once.stats);
    assert_eq!(twice.total_lines, once.total_lines);
}

#[test]
fn removed_files_no_longer_count() {
    let mut a = sample();
    a.watch_remove(&path("/r/docs/x.md"));
    assert_eq!((a.total_files, a.total_lines, a.total_bytes), (3, 140, 1400));
    assert!(a.stats.iter().all(|s| s.0 != Lang("Markdown")));
    assert!(a.tree.children.get("docs").is_none());
    a.watch_remove(&path("/r/docs/x.md"));
    a.watch_remove(&path("/r/never.rs"));
    assert_eq!((a.total_files, a.total_lines, a.total_bytes), (3, 140, 1400));
}

#[test]
fn a_file_that_comes_and_goes_leaves_no_trace() {
    let mut a = sample();
    let before = a.stats.clone();
    a.record(path("/r/deep/er/x.py"), Lang("Python"), 9, 90, 1);
    a.watch_remove(&path("/r/deep/er/x.py"));
    assert_eq!(a.stats, before);
    assert_eq!((a.total_files, a.total_lines, a.total_bytes), (4, 160, 1500));
    assert_eq!((a.tree.total_files, a.tree.total_lines), (4, 160));
    assert!(a.tree.children.get("deep").is_none());
}

#[test]
fn recordings_add_up() {
    let mut a = app();
    let (mut lines, mut bytes) = ([0, 0], 0);
    for i in 0..50u64 {
        let lang = ["Rust", "Go"][(i % 2) as usize];
        a.record(path(&format!("/r/d{}/f{i}", i % 7)), Lang(lang), i, 10 * i, 1);
        lines[(i % 2) as usize] += i;
        bytes += 10 * i;
    }
    assert_eq!((a.total_files, a.total_lines, a.total_bytes), (50, 1225, bytes));
    let of = |name: &str| a.stats.iter().find(|e| e.0 .0 == name).map(|e| (e.1.files, e.1.lines));
    assert_eq!(of("Rust"), Some((25, lines[0])));
    assert_eq!(of("Go"), Some((25, lines[1])));
}
