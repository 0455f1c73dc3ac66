use font8x8::legacy::BASIC_LEGACY;
use tcloc::app::{App, TileTarget};
use tcloc::bitmap_font;
use tcloc::double::Double;
use tcloc::grid::{Cell, Color, Rect, Style};
use tcloc::lang::{color, Lang};
use tcloc::path::FilePath;
use tcloc::time::Span;
use tcloc::ui::chrome::{
    put_str_clip, render_bench_hud, render_footer, render_header, render_legend, view_label, Put,
};
use tcloc::ui::color::{brighten, darken, readable_fg, tile_color};
use tcloc::ui::items::build_items;
use tcloc::ui::label::{bitmap_enabled, folder_label_info, max_label_scale, pick_label_scale};
use tcloc::ui::nested::build_nested;
use tcloc::ui::paint::{draw, Label, Shape, TextRow};
use tcloc::ui::panel::{Panel, Plan};
use tcloc::view::View;

fn path(s: &str) -> FilePath {
    FilePath::from_text(s)
}

fn ms(n: u64) -> Span {
    Span::from_nanos(n * 1_000_000)
}

fn double(x: f64) -> Double {
    Double::from_bits(x.to_bits())
}

fn rgb(r: u8, g: u8, b: u8) -> Color {
    Color::Rgb { r, g, b }
}

fn app() -> App {
    let mut a = App::new(path("/home/me/r"), ms(0));
    a.record(path("/home/me/r/src/main.rs"), Lang("Rust"), 300, 3000, 5);
    a.record(path("/home/me/r/src/lib.rs"), Lang("Rust"), 500, 5000, 7);
    a.record(path("/home/me/r/docs/x.md"), Lang("Markdown"), 200, 1000, 1);
    a.record(path("/home/me/r/top.go"), Lang("Go"), 600, 6000, 2);
    a
}

fn plain() -> Style {
    Style { fg: None, bg: None, bold: false, dim: false }
}

/// The rows of what was put, as text.
fn rows(puts: &[Put], width: u16, height: u16) -> Vec<String> {
    let mut out = vec![vec![' '; width as usize]; height as usize];
    for p in puts {
        out[p.y as usize][p.x as usize] = p.ch;
    }
    out.into_iter().map(|r| r.into_iter().collect::<String>().trim_end().to_string()).collect()
}

#[test]
fn text_is_clipped_at_the_edge() {
    let mut out: Vec<Put> = Vec::new();
    assert_eq!(put_str_clip(&mut out, 5, 3, 2, "añb", plain()), 5);
    assert_eq!(out.len(), 2);
    assert_eq!((out[1].x, out[1].y, out[1].ch), (4, 2, 'ñ'));
    assert_eq!(put_str_clip(&mut out, 5, 9, 2, "abc", plain()), 9);
    assert_eq!(put_str_clip(&mut out, 5, 1, 2, "ab", plain()), 3);
    assert_eq!(out.len(), 4);
}

#[test]
fn the_header_shows_where_and_how_much() {
    let mut a = app();
    a.current_path = vec!["src".to_string()];
    let puts = render_header(&a, Some(&path("/home/me")), ms(1540), 80);
    let text = &rows(&puts, 80, 1)[0];
    assert!(text.starts_with(" SCANNING  ~/r/src "));
    assert!(text.ends_with("4 files · 1,600 lines · 14.6K · 1.5s"));
    assert_eq!(text.chars().count(), 80);
    assert_eq!(puts[0].style.bg, Some(Color::Yellow));
    a.mark_done(ms(2000));
    let puts = render_header(&a, None, ms(9000), 80);
    assert!(rows(&puts, 80, 1)[0].starts_with(" DONE  /home/me/r/src "));
    a.watching = true;
    let puts = render_header(&a, None, ms(9000), 30);
    assert_eq!(rows(&puts, 30, 1)[0], " WATCHING  /home/me/r/src");
    assert!(render_header(&a, None, ms(9000), 0).is_empty());
}

#[test]
fn the_footer_shows_keys_and_the_last_file() {
    let a = app();
    let text = rows(&render_footer(&a, 120), 120, 1).remove(0);
    assert_eq!(
        text,
        "hjkl/↑↓←→ select  ⏎ zoom  esc up  tab view  o open  q quit  /home/me/r/top.go"
    );
    let text = rows(&render_footer(&a, 20), 20, 1).remove(0);
    assert_eq!(text, "hjkl/↑↓←→ select  ⏎");
}

#[test]
fn the_legend_lists_languages() {
    let mut a = app();
    let inner = Rect::new(3, 40, 33, 3);
    let puts = render_legend(&mut a, inner);
    assert_eq!(
        rows(&puts, 33, 3),
        [
            "language       files   lines",
            "██ Rust            2     800  50%",
            "██ Go              1     600  38%",
        ]
    );
    assert_eq!(a.legend_rect, inner);
    assert_eq!((a.legend_scroll, a.legend_max_scroll), (0, 1));
    a.legend_scroll = 9;
    let puts = render_legend(&mut a, inner);
    assert_eq!(a.legend_scroll, 1);
    assert_eq!(rows(&puts, 33, 3)[2], "██ Markdown        1     200  12%");
    assert!(render_legend(&mut a, Rect::new(0, 0, 0, 5)).is_empty());
}

#[test]
fn the_measurements_are_shown() {
    let mut a = app();
    a.bench.enabled = true;
    a.bench.record_frame(ms(5), 2048, 9);
    a.bench.record_layout(ms(2), 1, 0, 4);
    a.bench.last_input_latency = Some(ms(3));
    let text = rows(&render_bench_hud(&a, ms(2000), 300), 300, 1).remove(0);
    assert_eq!(
        text,
        "BENCH frame 5.00ms (p95 5.00ms, 200 fps)  input→draw 3.00ms  layout 2.00ms iters 1 drawn 4  \
         hb 0.00ms tx 0.00ms  scan 2 f/s 0.0 M ln/s 0.0 MB/s  per-file 0µs  alloc 9/2.0K"
    );
    assert!(render_bench_hud(&a, ms(2000), 10).len() == 10);
}

#[test]
fn views_have_titles() {
    assert_eq!(view_label(View::Tree), " tree ");
    assert_eq!(view_label(View::Files), " files ");
    assert_eq!(view_label(View::Nested), " nested ");
}

#[test]
fn colors_as_the_machine_computes_them() {
    for amount in [0.0, 0.1, 0.35, 0.4, 0.45, 0.7, 1.0, 2.5] {
        for v in 0..=255u8 {
            let f: f64 = if amount > 1.0 { 1.0 } else { amount };
            let up = v as f64 + (255.0 - v as f64) * f;
            let down = v as f64 * (1.0 - f);
            let up = up as u8;
            let down = down as u8;
            assert_eq!(brighten(rgb(v, v, v), double(amount)), rgb(up, up, up), "{v} {amount}");
            assert_eq!(darken(rgb(v, v, v), double(amount)), rgb(down, down, down), "{v} {amount}");
        }
    }
    assert_eq!(brighten(Color::Red, double(0.5)), Color::Red);
    assert_eq!(darken(Color::Red, double(0.5)), Color::Red);
}

#[test]
fn text_is_readable_on_any_color() {
    let mut seen = [0, 0];
    for r in (0..=255u32).step_by(15) {
        for g in (0..=255u32).step_by(15) {
            for b in (0..=255u32).step_by(15) {
                let lum = 0.2126 * r as f64 + 0.7152 * g as f64 + 0.0722 * b as f64;
                let want = if lum > 140.0 { Color::Black } else { Color::White };
                assert_eq!(readable_fg(rgb(r as u8, g as u8, b as u8)), want);
                seen[(lum > 140.0) as usize] += 1;
            }
        }
    }
    assert!(seen[0] > 0 && seen[1] > 0);
    assert_eq!(readable_fg(Color::Green), Color::White);
}

#[test]
fn selected_and_pulsing_tiles_are_brighter() {
    let c = rgb(100, 50, 0);
    assert_eq!(tile_color(c, false, Double::zero()), c);
    assert_eq!(tile_color(c, true, Double::zero()), brighten(c, double(0.4)));
    let bright = brighten(c, double(0.4));
    assert_eq!(tile_color(c, true, double(0.25)), brighten(bright, double(0.25)));
    assert_eq!(tile_color(c, false, double(0.25)), brighten(c, double(0.25)));
}

#[test]
fn labels_scale_with_the_area() {
    assert!(!bitmap_enabled(Rect::new(0, 0, 143, 44)));
    assert!(!bitmap_enabled(Rect::new(0, 0, 144, 43)));
    assert!(bitmap_enabled(Rect::new(0, 0, 144, 44)));
    assert_eq!(max_label_scale(Rect::new(0, 0, 95, 200)), 0);
    assert_eq!(max_label_scale(Rect::new(0, 0, 96, 30)), 1);
    assert_eq!(max_label_scale(Rect::new(0, 0, 264, 80)), 2);
    assert_eq!(max_label_scale(Rect::new(0, 0, 400, 91)), 2);
    assert_eq!(max_label_scale(Rect::new(0, 0, 312, 92)), 3);
}

#[test]
fn labels_fit_their_tiles() {
    let w = bitmap_font::label_width("abc", 1);
    let h = bitmap_font::label_height(1);
    assert_eq!(pick_label_scale("abc", w + 2, h + 2, 3), Some(1));
    assert_eq!(pick_label_scale("abc", w + 1, h + 2, 3), None);
    assert_eq!(pick_label_scale("abc", w + 2, h + 1, 3), None);
    assert_eq!(pick_label_scale("abc", 1000, 1000, 3), Some(3));
    assert_eq!(pick_label_scale("abc", 1000, 1000, 2), Some(2));
    assert_eq!(pick_label_scale("abc", 1000, 1000, 0), None);
    assert_eq!(pick_label_scale("", 1000, 1000, 3), None);
    assert_eq!(pick_label_scale("é", 1000, 1000, 3), None);
}

#[test]
fn folders_have_a_band_for_their_name() {
    assert_eq!(folder_label_info(Rect::new(0, 0, 3, 90), "a/", true, 3), (None, 0, 0));
    assert_eq!(folder_label_info(Rect::new(0, 0, 40, 3), "a/", false, 3), (None, 0, 0));
    assert_eq!(folder_label_info(Rect::new(0, 0, 40, 4), "a/", false, 3), (None, 1, 3));
    let (scale, rows, band) = folder_label_info(Rect::new(0, 0, 200, 60), "a/", true, 1);
    assert_eq!((scale, rows), (Some(1), 0));
    assert_eq!(band, 2 + bitmap_font::label_height(1));
}

#[test]
fn glyphs_come_from_the_font() {
    let scale = 2u16;
    let w = bitmap_font::label_width("A?", scale) as usize;
    let h = bitmap_font::label_height(scale) as usize;
    let mut cells: Vec<Option<Color>> = vec![None; w * h];
    bitmap_font::paint(&mut cells, w, h, 0, 0, "A?", Color::White, scale);
    let set = cells.iter().filter(|c| c.is_some()).count();
    let bits: u32 = ['A', '?']
        .iter()
        .flat_map(|c| BASIC_LEGACY[*c as usize].iter())
        .map(|row| row.count_ones())
        .sum();
    assert!(set > 0);
    assert_eq!(set as u32, bits * (scale as u32) * (scale as u32));
}

#[test]
fn glyphs_are_clipped() {
    let mut cells: Vec<Option<Color>> = vec![None; 16];
    bitmap_font::paint(&mut cells, 4, 4, -3, -2, "M", Color::White, 1);
    bitmap_font::paint(&mut cells, 4, 4, 100, 100, "M", Color::White, 1);
    assert!(cells.iter().any(|c| c.is_some()));
}

#[test]
fn items_of_the_tree_view() {
    let a = app();
    let items = build_items(&a);
    let names: Vec<&str> = items.iter().map(|i| i.name.as_str()).collect();
    assert_eq!(names, ["docs/", "src/", "top.go"]);
    let src = &items[1];
    assert_eq!((src.value, src.color), (800, color(Lang("Rust"))));
    assert_eq!(src.subtitle1, "800 (50.0%)");
    assert_eq!(src.subtitle2, "2 files");
    assert!(src.target.same(&TileTarget::Folder(vec!["src".to_string()])));
    assert_eq!(items[2].subtitle1, "600 (37.5%)");
    assert_eq!(items[2].subtitle2, "");
}

#[test]
fn items_of_the_files_view() {
    let mut a = app();
    a.toggle_view();
    let items = build_items(&a);
    let names: Vec<(&str, &str)> =
        items.iter().map(|i| (i.name.as_str(), i.subtitle2.as_str())).collect();
    assert_eq!(names, [("top.go", ""), ("lib.rs", "src"), ("main.rs", "src"), ("x.md", "docs")]);
    a.current_path = vec!["src".to_string()];
    let items = build_items(&a);
    assert_eq!(items.len(), 2);
    assert_eq!(items[0].subtitle1, "500 (62.5%)");
    assert_eq!(items[0].subtitle2, "");
    a.toggle_view();
    assert!(build_items(&a).is_empty());
}

#[test]
fn boxes_of_the_nested_view() {
    let a = app();
    let area = Rect::new(0, 0, 81, 61);
    let nodes = build_nested(a.current_folder(), area, &vec![], false, 0);
    let names: Vec<&str> = nodes.iter().map(|n| n.name.as_str()).collect();
    assert_eq!(names, ["src/", "lib.rs", "main.rs", "top.go", "docs/", "x.md"]);
    let src = &nodes[0];
    assert!(src.is_folder);
    assert_eq!(src.color, darken(color(Lang("Rust")), double(0.35)));
    for n in &nodes[1..3] {
        assert!(n.rect.left > src.rect.left && n.rect.top > src.rect.top);
        assert!(n.rect.left + n.rect.width < src.rect.left + src.rect.width);
        assert!(n.rect.top + n.rect.height <= src.rect.top + src.rect.height);
    }
    assert_eq!(nodes[1].subtitle1, "500");
    assert!(build_nested(a.current_folder(), Rect::new(0, 0, 0, 9), &vec![], false, 0).is_empty());
}

fn cell(cells: &[Cell], width: usize, row: usize, col: usize) -> Cell {
    cells[row * width + col]
}

#[test]
fn two_rows_share_a_cell() {
    let shape = |top: u16, height: u16, bg: Color| Shape {
        rect: Rect::new(top, 0, 2, height),
        bg,
        name: String::new(),
        label: None,
        rows: vec![],
    };
    let shapes = vec![shape(0, 1, rgb(1, 1, 1)), shape(1, 2, rgb(2, 2, 2))];
    let cells = draw(&shapes, 3, 2);
    assert_eq!(cells.len(), 6);
    let top = cell(&cells, 3, 0, 0);
    assert_eq!((top.symbol, top.style.fg, top.style.bg), ('▀', Some(rgb(1, 1, 1)), Some(rgb(2, 2, 2))));
    let low = cell(&cells, 3, 1, 1);
    assert_eq!((low.symbol, low.style.fg, low.style.bg), ('▀', Some(rgb(2, 2, 2)), Some(Color::Reset)));
    let none = cell(&cells, 3, 0, 2);
    assert_eq!((none.symbol, none.style.bg), (' ', Some(Color::Reset)));
    let cells = draw(&vec![shape(0, 4, rgb(3, 3, 3))], 1, 2);
    assert_eq!((cells[0].symbol, cells[0].style.bg), (' ', Some(rgb(3, 3, 3))));
    let cells = draw(&vec![shape(1, 1, rgb(3, 3, 3))], 1, 1);
    assert_eq!((cells[0].symbol, cells[0].style.fg), ('▄', Some(rgb(3, 3, 3))));
}

#[test]
fn text_keeps_the_color_below() {
    let style = Style { fg: Some(Color::White), bg: None, bold: true, dim: false };
    let shape = Shape {
        rect: Rect::new(0, 1, 3, 2),
        bg: rgb(9, 9, 9),
        name: String::new(),
        label: None,
        rows: vec![TextRow { y: 0, text: "hél".to_string(), style }],
    };
    let cells = draw(&vec![shape], 6, 1);
    let text: String = cells.iter().map(|c| c.symbol).collect();
    assert_eq!(text, " hél  ");
    assert_eq!(cells[2].style, Style { bg: Some(rgb(9, 9, 9)), ..style });
    assert_eq!(cells[4].style.bg, Some(Color::Reset));
}

#[test]
fn large_labels_are_painted() {
    let shape = Shape {
        rect: Rect::new(0, 0, 20, 20),
        bg: rgb(0, 0, 0),
        name: "A".to_string(),
        label: Some(Label { scale: 1, x: 4, y: 4 }),
        rows: vec![],
    };
    let cells = draw(&vec![shape], 20, 10);
    let on = cells
        .iter()
        .filter(|c| c.style.fg == Some(Color::White) || c.style.bg == Some(Color::White))
        .count();
    assert!(on > 0);
}

#[test]
fn a_panel_is_planned_and_drawn() {
    let mut a = app();
    a.bench.enabled = true;
    let mut panel = Panel::new();
    let inner = Rect::new(3, 2, 60, 20);
    let plan = panel.plan(&mut a, inner);
    assert!(!a.items_dirty);
    let cells = panel.draw(&mut a, &plan, inner, ms(3)).unwrap();
    assert_eq!(cells.len(), 60 * 20);
    assert_eq!(a.last_tiles.len(), 3);
    assert_eq!(a.bench.last_treemap_layout, ms(3));
    assert_eq!(a.bench.last_tiles_drawn, 3);
    for (r, t) in a.last_tiles.clone() {
        assert!(r.top >= 3 && r.left >= 2);
        assert!(r.top + r.height <= 23 && r.left + r.width <= 62);
        assert!(a.hit(r.left, r.top).unwrap().same(&t));
    }
    let text: String = cells.iter().map(|c| c.symbol).collect();
    assert!(text.contains("src/") && text.contains("800 (50.0%)") && text.contains("2 files"));
}

#[test]
fn a_nested_panel_is_planned_and_drawn() {
    let mut a = app();
    a.view = View::Nested;
    let mut panel = Panel::new();
    let inner = Rect::new(0, 0, 80, 30);
    let plan = panel.plan(&mut a, inner);
    assert!(matches!(plan, Plan::Nested { .. }));
    let cells = panel.draw(&mut a, &plan, inner, ms(1)).unwrap();
    let text: String = cells.iter().map(|c| c.symbol).collect();
    for name in ["src/", "lib.rs", "main.rs", "top.go", "docs/", "x.md"] {
        assert!(text.contains(name), "{name}");
    }
    assert_eq!(a.last_tiles.len(), 6);
}

#[test]
fn an_empty_panel_shows_nothing() {
    let mut a = App::new(path("/r"), ms(0));
    let mut panel = Panel::new();
    let inner = Rect::new(0, 0, 60, 20);
    let plan = panel.plan(&mut a, inner);
    assert!(panel.draw(&mut a, &plan, inner, ms(0)).is_none());
    let mut a = app();
    let inner = Rect::new(0, 0, 0, 20);
    let plan = panel.plan(&mut a, inner);
    assert!(panel.draw(&mut a, &plan, inner, ms(0)).is_none());
    assert!(a.last_tiles.is_empty());
}

fn deep_app() -> App {
    let mut a = App::new(path("/r"), ms(0));
    for i in 0..6u64 {
        for j in 0..4u64 {
            for k in 0..3u64 {
                let file = path(&format!("/r/d{i}/e{j}/f{k}.rs"));
                a.record(file, Lang("Rust"), 1 + (i * 7 + j * 5 + k * 3) % 11 * 40, 10, 1);
            }
        }
    }
    a
}

#[test]
fn boxes_lie_in_their_folders() {
    let a = deep_app();
    for (w, h) in [(200u16, 160u16), (81, 61), (40, 90)] {
        let area = Rect::new(0, 0, w + 1, h + 1);
        let nodes = build_nested(a.current_folder(), area, &vec![], false, 0);
        assert!(nodes.len() > 10);
        let edges = |r: Rect| (r.left, r.top, r.left + r.width, r.top + r.height);
        for (i, x) in nodes.iter().enumerate() {
            let (x0, y0, x1, y1) = edges(x.rect);
            assert!(x1 <= w && y1 <= h);
            for y in &nodes[i + 1..] {
                let (u0, v0, u1, v1) = edges(y.rect);
                let apart = x1 <= u0 || u1 <= x0 || y1 <= v0 || v1 <= y0;
                let inside = x0 <= u0 && u1 <= x1 && y0 <= v0 && v1 <= y1;
                assert!(apart || (x.is_folder && inside));
            }
        }
    }
}

#[test]
fn clicks_hit_what_is_drawn() {
    let mut a = deep_app();
    let inner = Rect::new(3, 5, 90, 40);
    for view in [View::Tree, View::Files, View::Nested] {
        a.view = view;
        a.items_dirty = true;
        let mut panel = Panel::new();
        let plan = panel.plan(&mut a, inner);
        assert!(panel.draw(&mut a, &plan, inner, ms(1)).is_some());
        assert!(!a.last_tiles.is_empty());
        for (r, _) in &a.last_tiles {
            assert!(r.left >= 5 && r.top >= 3);
            assert!(r.left + r.width <= 95 && r.top + r.height <= 43);
        }
        if let Plan::Flat { tiles, .. } = &plan {
            let (hit, _) = &a.last_tiles[0];
            let r = tiles[0].rect;
            for row in 0..40u16 {
                let drawn = [2 * row, 2 * row + 1].iter().any(|y| {
                    *y >= r.top && *y < r.top + r.height - 1
                });
                assert_eq!(hit.contains(3 + row, 5 + r.left), drawn);
            }
        }
    }
}

#[test]
fn the_files_view_shows_every_file() {
    let mut a = App::new(path("/r"), ms(0));
    for i in 0..9000u64 {
        a.record(path(&format!("/r/d{}/f{}.rs", i % 90, i)), Lang("Rust"), i, 1, 1);
    }
    a.view = View::Files;
    let items = build_items(&a);
    assert_eq!(items.len(), 8999);
    assert!(items.windows(2).all(|w| w[0].value >= w[1].value));
    assert_eq!(items[8998].value, 1);
}

#[test]
fn no_item_is_shown_twice() {
    let mut a = deep_app();
    a.view = View::Files;
    let mut panel = Panel::new();
    panel.prepare(&mut a, Rect::new(0, 0, 60, 30));
    assert!(!a.items_dirty);
    assert_eq!(panel.items.len(), 72);
    if let Plan::Flat { tiles, .. } = panel.plan(&mut a, Rect::new(0, 0, 60, 30)) {
        let mut seen: Vec<usize> = tiles.iter().map(|t| t.data).collect();
        seen.sort();
        seen.dedup();
        assert_eq!(seen.len(), tiles.len());
    } else {
        panic!();
    }
}

#[test]
fn valid_names_are_shown_as_they_are() {
    let mut a = App::new(path("/heim/größe"), ms(0));
    a.record(path("/heim/größe/日本/é.rs"), Lang("Rust"), 10, 100, 1);
    let names: Vec<&str> = a.tree.children.entries.iter().map(|e| e.0.as_str()).collect();
    assert_eq!(names, ["日本"]);
    assert_eq!(a.breadcrumb_parts(Some(&path("/heim"))).0, "~/größe");
    assert_eq!(a.breadcrumb_parts(None).0, "/heim/größe");
    let footer: String = render_footer(&a, 200).iter().map(|p| p.ch).collect();
    assert!(footer.ends_with("/heim/größe/日本/é.rs"));
    a.view = View::Files;
    let items = build_items(&a);
    assert_eq!((items[0].name.as_str(), items[0].subtitle2.as_str()), ("é.rs", "日本"));
    a.watch_remove(&path("/heim/größe/日本/é.rs"));
    assert!(a.tree.children.entries.is_empty());
}

#[test]
fn planning_is_picking_and_laying_out() {
    let inner = Rect::new(0, 0, 60, 30);
    let mut a = deep_app();
    a.view = View::Files;
    let mut panel = Panel::new();
    panel.prepare(&mut a, inner);
    let picked = panel.pick(inner);
    assert_eq!(picked.values.len(), 72);
    let Plan::Flat { tiles, iters, excluded } = panel.lay_out(&mut a, inner, &picked) else {
        panic!();
    };
    let Plan::Flat { tiles: same, iters: i, excluded: e } = panel.plan(&mut a, inner) else {
        panic!();
    };
    assert_eq!((tiles.len(), iters, excluded), (same.len(), i, e));
    for (t, s) in tiles.iter().zip(same.iter()) {
        assert_eq!((t.rect, t.data), (s.rect, s.data));
    }
}
