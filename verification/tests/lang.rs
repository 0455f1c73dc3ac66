use tcloc::grid::Color;
use tcloc::lang::{color, detect, Lang};
use tcloc::path::FilePath;

fn path(s: &str) -> FilePath {
    FilePath::from_text(s)
}

#[test]
fn detect_by_extension() {
    assert_eq!(detect(&path("foo.rs")), Some(Lang("Rust")));
    assert_eq!(detect(&path("dir/sub/main.go")), Some(Lang("Go")));
    assert_eq!(detect(&path("MAIN.RS")), Some(Lang("Rust")));
    assert_eq!(detect(&path("foo.unknown")), None);
    assert_eq!(detect(&path("noext")), None);
}

#[test]
fn detect_by_filename() {
    assert_eq!(detect(&path("Makefile")), Some(Lang("Make")));
    assert_eq!(detect(&path("path/Dockerfile")), Some(Lang("Dockerfile")));
    assert_eq!(detect(&path("Cargo.toml")), Some(Lang("TOML")));
    assert_eq!(detect(&path("Cargo.lock")), Some(Lang("TOML")));
}

#[test]
fn color_round_trip() {
    let r = detect(&path("a.rs")).unwrap();
    match color(r) {
        Color::Rgb { .. } => {}
        _ => panic!("expected Rgb"),
    }
}

#[test]
fn detect_odd_paths() {
    assert_eq!(detect(&path("")), None);
    assert_eq!(detect(&path("/")), None);
    assert_eq!(detect(&path("a/..")), None);
    assert_eq!(detect(&path(".rs")), None);
    assert_eq!(detect(&path("a.tar.py")), Some(Lang("Python")));
    assert_eq!(detect(&path("a.rs/")), Some(Lang("Rust")));
    assert_eq!(detect(&FilePath { bytes: vec![b'a', b'.', 0xff] }), None);
    assert_eq!(detect(&FilePath { bytes: vec![0xff, b'.', b'c'] }), Some(Lang("C")));
}

#[test]
fn color_of_an_unknown_language() {
    assert_eq!(color(Lang("Nothing of the kind")), color(Lang("")));
    assert_ne!(color(Lang("Rust")), color(Lang("Go")));
}
