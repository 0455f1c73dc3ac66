use tcloc::double::Double;
use tcloc::grid::Rect;
use tcloc::treemap::{squarify_into, Item, Tile};
use tcloc::ui::layout::{lay_out, layout_tiles, pick};

fn items(values: &[u64]) -> Vec<Item<usize>> {
    values
        .iter()
        .enumerate()
        .map(|(i, v)| Item { value: Double::of(*v), data: i })
        .collect()
}

fn tiles(values: &[u64], area: Rect) -> Vec<(u16, u16, u16, u16, usize)> {
    let mut out: Vec<Tile<usize>> = Vec::new();
    squarify_into(&items(values), area, &mut out);
    out.iter()
        .map(|t| (t.rect.top, t.rect.left, t.rect.width, t.rect.height, t.data))
        .collect()
}

/// The same layout in the arithmetic of the machine.
fn machine_tiles(values: &[u64], area: Rect) -> Vec<(u16, u16, u16, u16, usize)> {
    let mut out = Vec::new();
    let sum: f64 = values.iter().map(|v| *v as f64).sum();
    if values.is_empty() || area.width == 0 || area.height == 0 || sum <= 0.0 {
        return out;
    }
    let scale = area.width as f64 * area.height as f64 / sum;
    let mut all: Vec<(f64, usize)> =
        values.iter().enumerate().map(|(i, v)| (*v as f64 * scale, i)).collect();
    all.sort_by(|a, b| b.0.partial_cmp(&a.0).unwrap());
    let (mut x, mut y) = (area.left as f64, area.top as f64);
    let (mut w, mut h) = (area.width as f64, area.height as f64);
    let ratio = |row: &[(f64, usize)], short: f64| -> f64 {
        let s: f64 = row.iter().map(|r| r.0).sum();
        if s <= 0.0 {
            return f64::INFINITY;
        }
        let max = row.iter().map(|r| r.0).fold(0.0, f64::max);
        let min = row.iter().map(|r| r.0).fold(f64::INFINITY, f64::min);
        let (s2, sum2) = (short * short, s * s);
        (s2 * max / sum2).max(sum2 / (s2 * min))
    };
    let mut i = 0;
    while i < all.len() {
        let short = w.min(h);
        if short <= 0.0 {
            break;
        }
        let mut end = i + 1;
        let mut best = ratio(&all[i..end], short);
        while end < all.len() {
            let next = ratio(&all[i..end + 1], short);
            if next <= best {
                best = next;
                end += 1;
            } else {
                break;
            }
        }
        let row = &all[i..end];
        i = end;
        let s: f64 = row.iter().map(|r| r.0).sum();
        if s <= 0.0 {
            continue;
        }
        let across = w <= h;
        let deep = if across { (s / w).min(h) } else { (s / h).min(w) };
        let mut at = if across { x } else { y };
        for (v, data) in row {
            let long = v / deep;
            let (tx, ty, tw, th) = if across { (at, y, long, deep) } else { (x, at, deep, long) };
            let (x1, y1) = (tx.round() as i32, ty.round() as i32);
            let (x2, y2) = ((tx + tw).round() as i32, (ty + th).round() as i32);
            let (width, height) = ((x2 - x1).max(0) as u16, (y2 - y1).max(0) as u16);
            if width > 0 && height > 0 {
                out.push((y1 as u16, x1 as u16, width, height, *data));
            }
            at += long;
        }
        if across {
            y += deep;
            h -= deep;
        } else {
            x += deep;
            w -= deep;
        }
    }
    out
}

fn next(seed: &mut u64) -> u64 {
    *seed ^= *seed << 13;
    *seed ^= *seed >> 7;
    *seed ^= *seed << 17;
    *seed
}

#[test]
fn one_item_fills_the_area() {
    assert_eq!(tiles(&[7], Rect::new(2, 3, 40, 20)), [(2, 3, 40, 20, 0)]);
}

#[test]
fn equal_items_share_the_area() {
    assert_eq!(
        tiles(&[5, 5, 5, 5], Rect::new(0, 0, 10, 10)),
        [(0, 0, 5, 5, 0), (0, 5, 5, 5, 1), (5, 0, 5, 5, 2), (5, 5, 5, 5, 3)]
    );
}

#[test]
fn nothing_to_lay_out() {
    assert!(tiles(&[], Rect::new(0, 0, 10, 10)).is_empty());
    assert!(tiles(&[1, 2], Rect::new(0, 0, 0, 10)).is_empty());
    assert!(tiles(&[1, 2], Rect::new(0, 0, 10, 0)).is_empty());
    assert!(tiles(&[0, 0], Rect::new(0, 0, 10, 10)).is_empty());
}

#[test]
fn layout_as_the_machine_computes_it() {
    let mut seed: u64 = 1234567;
    for round in 0..400 {
        let n = (next(&mut seed) % 60) as usize;
        let top = if round % 3 == 0 { 10 } else { 1_000_000 };
        let values: Vec<u64> = (0..n).map(|_| next(&mut seed) % top).collect();
        let w = (next(&mut seed) % 200) as u16;
        let h = (next(&mut seed) % 100) as u16;
        let area = Rect::new((next(&mut seed) % 5) as u16, (next(&mut seed) % 5) as u16, w, h);
        assert_eq!(tiles(&values, area), machine_tiles(&values, area), "{values:?} {area:?}");
    }
}

#[test]
fn tiles_never_overlap_and_stay_inside() {
    let mut seed: u64 = 987654321;
    for _ in 0..200 {
        let n = (next(&mut seed) % 50 + 1) as usize;
        let values: Vec<u64> = (0..n).map(|_| next(&mut seed) % 5000 + 1).collect();
        let area = Rect::new(1, 2, (next(&mut seed) % 120 + 1) as u16, (next(&mut seed) % 80 + 1) as u16);
        let ts = tiles(&values, area);
        for (i, a) in ts.iter().enumerate() {
            assert!(a.0 >= area.top && a.1 >= area.left);
            assert!(a.0 + a.3 <= area.top + area.height);
            assert!(a.1 + a.2 <= area.left + area.width);
            for b in &ts[i + 1..] {
                let apart = a.0 + a.3 <= b.0
                    || b.0 + b.3 <= a.0
                    || a.1 + a.2 <= b.1
                    || b.1 + b.2 <= a.1;
                assert!(apart, "{a:?} {b:?}");
            }
        }
    }
}

#[test]
fn squarify_replaces_what_was_there() {
    let mut out = vec![Tile { rect: Rect::new(0, 0, 1, 1), data: 9usize }];
    squarify_into(&items(&[]), Rect::new(0, 0, 4, 4), &mut out);
    assert!(out.is_empty());
}

#[test]
fn flat_layout_leaves_out_what_is_too_small() {
    let inner = Rect::new(0, 0, 40, 10);
    let (tiles, iters, excluded) = layout_tiles(&vec![1000, 1000, 1, 0], inner);
    let mut shown: Vec<usize> = tiles.iter().map(|t| t.data).collect();
    shown.sort();
    assert_eq!(shown, [0, 1]);
    assert_eq!((iters, excluded), (1, 0));
    for t in &tiles {
        assert!(t.rect.width >= 3 && t.rect.height >= 3);
    }
    let (none, iters, excluded) = layout_tiles(&vec![0, 0], inner);
    assert!(none.is_empty());
    assert_eq!((iters, excluded), (0, 0));
    let (none, _, _) = layout_tiles(&vec![5], Rect::new(0, 0, 0, 10));
    assert!(none.is_empty());
}

#[test]
fn tiles_have_the_areas_of_their_values() {
    assert_eq!(
        tiles(&[60, 30, 10], Rect::new(0, 0, 20, 10)),
        [(0, 0, 12, 10, 0), (0, 12, 8, 8, 1), (8, 12, 8, 2, 2)]
    );
    let mut seed: u64 = 24680;
    for _ in 0..200 {
        let n = (next(&mut seed) % 40 + 1) as usize;
        let values: Vec<u64> = (0..n).map(|_| next(&mut seed) % 5000 + 1).collect();
        let sum: u64 = values.iter().sum();
        let area = Rect::new(1, 2, (next(&mut seed) % 120 + 1) as u16, (next(&mut seed) % 80 + 1) as u16);
        for t in tiles(&values, area) {
            let share = values[t.4] as f64 / sum as f64 * area.width as f64 * area.height as f64;
            let (w, h) = (t.2 as f64, t.3 as f64);
            assert!(share <= (w + 1.01) * (h + 1.01));
            assert!(share >= (w - 1.01).max(0.0) * (h - 1.01).max(0.0));
        }
    }
}

#[test]
fn tiles_cover_the_area() {
    let mut seed: u64 = 13579;
    for round in 0..200u64 {
        let n = (next(&mut seed) % 60 + 1) as usize;
        let top = if round % 2 == 0 { 4 } else { 100_000 };
        let values: Vec<u64> = (0..n).map(|i| next(&mut seed) % top + (i == 0) as u64).collect();
        let area = Rect::new(3, 1, (next(&mut seed) % 90 + 1) as u16, (next(&mut seed) % 60 + 1) as u16);
        let ts = tiles(&values, area);
        for row in area.top..area.top + area.height {
            for col in area.left..area.left + area.width {
                let over = ts
                    .iter()
                    .filter(|t| Rect::new(t.0, t.1, t.2, t.3).contains(row, col))
                    .count();
                assert_eq!(over, 1, "{values:?} {area:?} {row} {col}");
            }
        }
    }
}

#[test]
fn few_values_are_worth_a_tile() {
    let inner = Rect::new(0, 0, 10, 5);
    assert_eq!(pick(&vec![1; 11], inner), (0..11).collect::<Vec<usize>>());
    assert!(pick(&vec![1; 12], inner).is_empty());
    let mut values = vec![1; 5000];
    values[7] = 4000;
    values[9] = 5000;
    assert_eq!(pick(&values, inner), [9, 7]);
    for n in 1..200u64 {
        let values: Vec<u64> = (1..=n).map(|i| i * i * i).collect();
        assert!(9 * pick(&values, inner).len() <= 100);
    }
    assert!(pick(&vec![0, 0], inner).is_empty());
    assert!(pick(&vec![5], Rect::new(0, 0, 0, 5)).is_empty());
}

#[test]
fn what_was_picked_is_laid_out() {
    let inner = Rect::new(0, 0, 40, 10);
    let values = vec![1000, 1, 500, 0, 250];
    let order = pick(&values, inner);
    assert_eq!(order, [0, 2, 4]);
    let (tiles, iters, excluded) = lay_out(&values, &order, inner);
    let (all, all_iters, all_excluded) = layout_tiles(&values, inner);
    assert_eq!((iters, excluded), (all_iters, all_excluded));
    let shown = |ts: &[Tile<usize>]| -> Vec<(u16, u16, u16, u16, usize)> {
        ts.iter()
            .map(|t| (t.rect.top, t.rect.left, t.rect.width, t.rect.height, t.data))
            .collect()
    };
    assert_eq!(shown(&tiles), shown(&all));
    assert_eq!(tiles.len(), 3);
}
