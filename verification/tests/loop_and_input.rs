use tcloc::alloc_track::AllocStats;
use tcloc::app::{App, TileTarget};
use tcloc::grid::Rect;
use tcloc::input::{
    coalesce, handle_event, handle_key, handle_mouse, Event, EventOutcome, Key, MouseKind,
};
use tcloc::lang::Lang;
use tcloc::path::FilePath;
use tcloc::scanner::ScanEvent;
use tcloc::session::{
    apply_scan, apply_watch, budget_spent, frame_drawn, frame_interval, Session,
};
use tcloc::time::Span;
use tcloc::view::View;
use tcloc::watcher::WatchEvent;

fn path(s: &str) -> FilePath {
    FilePath::from_text(s)
}

fn ms(n: u64) -> Span {
    Span::from_nanos(n * 1_000_000)
}

fn app() -> App {
    let mut a = App::new(path("/r"), ms(0));
    a.record(path("/r/src/main.rs"), Lang("Rust"), 30, 300, 5);
    a.record(path("/r/top.go"), Lang("Go"), 60, 600, 2);
    a
}

fn press(key: Key) -> Event {
    Event::Key { key, ctrl: false, press: true }
}

fn is_quit(o: EventOutcome) -> bool {
    matches!(o, EventOutcome::Quit)
}

fn is_redraw(o: EventOutcome) -> bool {
    matches!(o, EventOutcome::Redraw)
}

fn is_ignored(o: EventOutcome) -> bool {
    matches!(o, EventOutcome::Ignored)
}

#[test]
fn keys_that_quit() {
    let mut a = app();
    assert!(is_quit(handle_key(&mut a, Key::Char('q'), false)));
    assert!(is_quit(handle_key(&mut a, Key::Char('q'), true)));
    assert!(is_quit(handle_key(&mut a, Key::Char('c'), true)));
    assert!(is_quit(handle_key(&mut a, Key::Char('d'), true)));
    assert!(is_ignored(handle_key(&mut a, Key::Char('c'), false)));
    assert!(is_ignored(handle_key(&mut a, Key::Char('x'), false)));
    assert!(is_ignored(handle_key(&mut a, Key::Other, false)));
}

#[test]
fn keys_that_move() {
    let mut a = app();
    let tile = |name: &str| TileTarget::File(path(name));
    a.last_tiles = vec![
        (Rect::new(0, 0, 10, 10), tile("/r/a")),
        (Rect::new(0, 10, 10, 10), tile("/r/b")),
        (Rect::new(10, 0, 10, 10), tile("/r/c")),
    ];
    let steps = [
        (Key::Char('l'), "/r/a"),
        (Key::Char('l'), "/r/b"),
        (Key::Char('h'), "/r/a"),
        (Key::Right, "/r/b"),
        (Key::Left, "/r/a"),
        (Key::Char('j'), "/r/c"),
        (Key::Char('k'), "/r/a"),
        (Key::Down, "/r/c"),
        (Key::Up, "/r/a"),
    ];
    for (key, want) in steps {
        assert!(is_redraw(handle_key(&mut a, key, false)));
        assert!(a.selected.as_ref().unwrap().same(&tile(want)), "{key:?}");
    }
}

#[test]
fn keys_that_zoom() {
    let mut a = app();
    a.selected = Some(TileTarget::Folder(vec!["src".to_string()]));
    assert!(is_redraw(handle_key(&mut a, Key::Enter, false)));
    assert_eq!(a.current_path, ["src"]);
    assert!(is_redraw(handle_key(&mut a, Key::Esc, false)));
    assert!(a.current_path.is_empty());
    a.selected = Some(TileTarget::Folder(vec!["src".to_string()]));
    assert!(is_redraw(handle_key(&mut a, Key::Esc, false)));
    assert!(a.selected.is_none());
    a.current_path = vec!["src".to_string()];
    assert!(is_redraw(handle_key(&mut a, Key::Backspace, false)));
    assert!(a.current_path.is_empty());
    assert!(is_redraw(handle_key(&mut a, Key::Tab, false)));
    assert_eq!(a.view, View::Files);
}

#[test]
fn a_file_opens_in_the_editor() {
    let mut a = app();
    assert!(is_ignored(handle_key(&mut a, Key::Char('o'), false)));
    a.selected = Some(TileTarget::Folder(vec!["src".to_string()]));
    assert!(is_ignored(handle_key(&mut a, Key::Char('o'), false)));
    a.selected = Some(TileTarget::File(path("/r/top.go")));
    match handle_key(&mut a, Key::Char('o'), false) {
        EventOutcome::OpenEditor(p) => assert_eq!(p.display(), "/r/top.go"),
        _ => panic!(),
    }
}

#[test]
fn keys_count_when_pressed() {
    let mut a = app();
    let release = Event::Key { key: Key::Char('q'), ctrl: false, press: false };
    assert!(is_ignored(handle_event(&mut a, release)));
    assert!(is_quit(handle_event(&mut a, press(Key::Char('q')))));
    assert!(is_ignored(handle_event(&mut a, Event::Other)));
}

#[test]
fn the_mouse_zooms() {
    let mut a = app();
    a.last_tiles = vec![
        (Rect::new(2, 2, 10, 10), TileTarget::Folder(vec!["src".to_string()])),
        (Rect::new(2, 12, 10, 10), TileTarget::File(path("/r/top.go"))),
    ];
    a.items_dirty = false;
    assert!(is_ignored(handle_mouse(&mut a, MouseKind::LeftDown, 0, 0)));
    assert!(is_ignored(handle_mouse(&mut a, MouseKind::LeftDown, 15, 5)));
    assert!(is_redraw(handle_mouse(&mut a, MouseKind::LeftDown, 5, 5)));
    assert_eq!(a.current_path, ["src"]);
    assert!(a.items_dirty);
    assert!(is_redraw(handle_mouse(&mut a, MouseKind::RightDown, 0, 0)));
    assert!(a.current_path.is_empty());
    assert!(is_ignored(handle_mouse(&mut a, MouseKind::Other, 5, 5)));
}

#[test]
fn the_wheel_scrolls_the_legend() {
    let mut a = app();
    a.legend_rect = Rect::new(1, 50, 30, 10);
    a.legend_max_scroll = 2;
    assert!(is_ignored(handle_mouse(&mut a, MouseKind::ScrollDown, 10, 5)));
    for want in [1, 2, 2] {
        assert!(is_redraw(handle_mouse(&mut a, MouseKind::ScrollDown, 60, 5)));
        assert_eq!(a.legend_scroll, want);
    }
    for want in [1, 0, 0] {
        assert!(is_redraw(handle_mouse(&mut a, MouseKind::ScrollUp, 60, 5)));
        assert_eq!(a.legend_scroll, want);
    }
}

#[test]
fn a_new_size_forgets_the_tiles() {
    let mut a = app();
    a.last_tiles = vec![(Rect::new(0, 0, 1, 1), TileTarget::File(path("/r/a")))];
    a.items_dirty = false;
    assert!(is_redraw(handle_event(&mut a, Event::Resize { width: 80, height: 24 })));
    assert!(a.last_tiles.is_empty() && a.items_dirty);
}

#[test]
fn only_the_last_size_is_kept() {
    let size = |n: u16| Event::Resize { width: n, height: n };
    let key = press(Key::Tab);
    assert_eq!(coalesce(&vec![size(1), key, size(2), size(3), key]), [key, size(3), key]);
    assert_eq!(coalesce(&vec![key, key]), [key, key]);
    assert_eq!(coalesce(&vec![size(7)]), [size(7)]);
    assert_eq!(coalesce(&vec![]), []);
}

#[test]
fn the_interval_adapts() {
    assert_eq!(frame_interval(ms(0)), ms(33));
    assert_eq!(frame_interval(ms(20)), ms(33));
    assert_eq!(frame_interval(ms(50)), ms(60));
    assert_eq!(frame_interval(ms(150)), ms(180));
    assert_eq!(frame_interval(ms(400)), ms(200));
    assert_eq!(frame_interval(Span { nanos: u128::MAX }), ms(200));
}

#[test]
fn frames_are_paced() {
    let mut s = Session::new();
    assert!(s.due(ms(0)));
    assert_eq!(s.begin_draw(), None);
    s.drew(ms(50), ms(100));
    assert!(!s.due(ms(1000)));
    assert!(!s.scan_drained(true, false, true));
    assert!(!s.due(ms(159)));
    assert_eq!(s.wait(ms(130)), ms(30));
    assert_eq!(s.wait(ms(300)), ms(1));
    assert!(s.due(ms(160)));
    s.drew(ms(1), ms(160));
    s.handled(&EventOutcome::Redraw, ms(161));
    s.handled(&EventOutcome::Redraw, ms(170));
    assert!(s.due(ms(161)));
    assert_eq!(s.begin_draw(), Some(ms(161)));
    assert_eq!(s.begin_draw(), None);
    s.drew(ms(1), ms(180));
    s.handled(&EventOutcome::Ignored, ms(181));
    assert!(!s.due(ms(181)));
    s.handled(&EventOutcome::OpenEditor(path("/r/a")), ms(182));
    assert!(s.due(ms(182)));
    assert_eq!(s.begin_draw(), None);
}

#[test]
fn the_watcher_starts_once() {
    let mut s = Session::new();
    assert!(!s.scan_drained(true, false, true));
    assert!(!s.scan_drained(true, true, false));
    assert!(!s.scan_drained(false, true, true));
    assert!(s.scan_drained(true, true, true));
    assert!(!s.scan_drained(true, true, true));
    s.drew(ms(0), ms(0));
    s.watch_drained(false);
    assert!(!s.scan_dirty);
    s.watch_drained(true);
    assert!(s.scan_dirty);
}

#[test]
fn the_program_ends_by_itself() {
    let mut s = Session::new();
    assert!(!s.exits(Some(5), ms(1000)));
    s.scan_done(ms(100));
    s.scan_done(ms(900));
    assert!(!s.exits(None, ms(10_000)));
    assert!(!s.exits(Some(50), ms(149)));
    assert!(s.exits(Some(50), ms(150)));
    assert!(s.exits(Some(0), ms(100)));
}

#[test]
fn draining_has_a_budget() {
    assert!(!budget_spent(ms(10), ms(18)));
    assert!(budget_spent(ms(10), ms(19)));
}

#[test]
fn reports_are_taken_in() {
    let mut a = app();
    apply_scan(
        &mut a,
        ScanEvent::File {
            path: path("/r/z.rs"),
            lang: Lang("Rust"),
            lines: 10,
            bytes: 100,
            mtime: None,
            count_nanos: 1,
        },
    );
    assert_eq!(a.total_lines, 100);
    apply_scan(&mut a, ScanEvent::Done { at: ms(7) });
    assert!(a.done);
    let upsert = WatchEvent::Upsert {
        path: path("/r/z.rs"),
        lang: Lang("Rust"),
        lines: 1,
        bytes: 10,
        mtime: None,
    };
    assert!(apply_watch(&mut a, upsert));
    assert_eq!(a.total_lines, 91);
    assert!(apply_watch(&mut a, WatchEvent::Remove { path: path("/r/z.rs") }));
    assert_eq!(a.total_lines, 90);
    assert!(!apply_watch(&mut a, WatchEvent::BatchDone));
    assert_eq!(a.total_lines, 90);
}

#[test]
fn frames_are_measured() {
    let mut a = app();
    frame_drawn(&mut a, ms(4), None, Some(ms(9)));
    assert_eq!(a.bench.frames_rendered, 0);
    assert_eq!(a.bench.last_input_latency, Some(ms(9)));
    let pre = AllocStats { allocs: 10, bytes_allocated: 1000, ..AllocStats::default() };
    let post = AllocStats { allocs: 13, bytes_allocated: 1500, ..AllocStats::default() };
    frame_drawn(&mut a, ms(4), Some((pre, post)), None);
    assert_eq!(a.bench.frames_rendered, 1);
    assert_eq!(a.bench.last_full_render, ms(4));
    assert_eq!((a.bench.last_frame_allocs, a.bench.last_frame_alloc_bytes), (3, 500));
    assert_eq!(a.bench.last_input_latency, Some(ms(9)));
}
