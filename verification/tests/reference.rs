//! Exhaustive comparisons on small canvases against plain restatements of
//! what each routine is meant to compute.

use cglib::circle::{draw_circle, draw_circle_bresenham};
use cglib::clip::clip;
use cglib::common::{Border, Image, Point, Rgba};
use cglib::depth::{print_objects_in_screen, DepthSample};
use cglib::fill::{edge_fill, flood_fill};
use cglib::line::{draw_line, draw_line_bresenham};

const WHITE: Rgba = [255, 255, 255, 255];
const BLACK: Rgba = [0, 0, 0, 255];
const GREEN: Rgba = [0, 200, 0, 255];

fn canvas(width: usize, height: usize) -> Image {
    vec![vec![WHITE; width]; height]
}

/// A canvas with the listed pixels, where it has them, set to the colour.
fn with_pixels(mut image: Image, points: &[(i64, i64)], color: Rgba) -> Image {
    for &(x, y) in points {
        if y >= 0 && (y as usize) < image.len() && x >= 0 && (x as usize) < image[y as usize].len() {
            image[y as usize][x as usize] = color;
        }
    }
    image
}

/// The nearest whole number to `n / d` for positive `d`, halves rounded up.
fn nearest_up(n: i64, d: i64) -> i64 {
    (2 * n + d).div_euclid(2 * d)
}

/// The pixels of a segment: one for each step along the longer extent, at
/// the nearest position along the other.
fn line_points(p0: Point, p1: Point) -> Vec<(i64, i64)> {
    let (x0, y0, x1, y1) = (p0.0 as i64, p0.1 as i64, p1.0 as i64, p1.1 as i64);
    let (dx, dy) = (x1 - x0, y1 - y0);
    if dx == 0 && dy == 0 {
        return vec![(x0, y0)];
    }
    let mut points = Vec::new();
    if dx.abs() >= dy.abs() {
        // walk from the left end, so that the divisor is positive
        let (ax, ay, ady) = if dx > 0 { (x0, y0, dy) } else { (x1, y1, -dy) };
        for k in 0..=dx.abs() {
            points.push((ax + k, ay + nearest_up(k * ady, dx.abs())));
        }
    } else {
        let (ax, ay, adx) = if dy > 0 { (x0, y0, dx) } else { (x1, y1, -dx) };
        for k in 0..=dy.abs() {
            points.push((ax + nearest_up(k * adx, dy.abs()), ay + k));
        }
    }
    points
}

#[test]
fn lines_match_the_nearest_pixel_rule_everywhere() {
    for x0 in -2..9 {
        for y0 in -2..9 {
            for x1 in -2..9 {
                for y1 in -2..9 {
                    let expected = with_pixels(canvas(7, 7), &line_points((x0, y0), (x1, y1)), BLACK);
                    let direct = draw_line(canvas(7, 7), (x0, y0), (x1, y1), BLACK);
                    assert_eq!(direct, expected, "{:?}", (x0, y0, x1, y1));
                    let stepped = draw_line_bresenham(canvas(7, 7), (x0, y0), (x1, y1), BLACK);
                    assert_eq!(stepped, expected, "{:?}", (x0, y0, x1, y1));
                }
            }
        }
    }
}

/// The pixels of the midpoint circle: in each column of the first octant the
/// greatest y with x^2 + y^2 - y < r^2, in all eight octants.
fn circle_points(center: Point, r: i64) -> Vec<(i64, i64)> {
    let (cx, cy) = (center.0 as i64, center.1 as i64);
    let mut points = Vec::new();
    for dx in -r - 1..=r + 1 {
        for dy in -r - 1..=r + 1 {
            let (x, y) = (dx.abs().min(dy.abs()), dx.abs().max(dy.abs()));
            let on = if r == 0 {
                y == 0
            } else {
                x * x + y * y - y < r * r && r * r <= x * x + y * y + y
            };
            if on {
                points.push((cx + dx, cy + dy));
            }
        }
    }
    points
}

#[test]
fn circles_match_the_arc_rule_for_many_radii() {
    for r in 0..40i32 {
        for center in [(20, 20), (0, 0), (39, 5), (-3, 44)] {
            let expected = with_pixels(canvas(41, 41), &circle_points(center, r as i64), BLACK);
            let drawn = draw_circle_bresenham(canvas(41, 41), center, (center.0, center.1 + r), BLACK);
            assert_eq!(drawn, expected, "radius {} centre {:?}", r, center);
        }
    }
}

fn root(n: i64) -> i64 {
    let mut r = 0;
    while (r + 1) * (r + 1) <= n {
        r += 1;
    }
    r
}

#[test]
fn column_wise_circles_match_the_equation_for_many_radii() {
    for r in 0..40i64 {
        let center = (20, 17);
        let mut points = Vec::new();
        for a in -r + 1..=r {
            let h = root(r * r - a * a);
            points.push((20 + a, 17 - h));
            points.push((20 + a, 17 + h));
        }
        let expected = with_pixels(canvas(41, 41), &points, BLACK);
        let drawn = draw_circle(canvas(41, 41), center, (20 - r as i32, 17), BLACK);
        assert_eq!(drawn, expected, "radius {}", r);
    }
}

/// The nearest whole number to `n / d`, halves rounded away from zero.
fn nearest_away(n: i64, d: i64) -> i64 {
    let q = (2 * n.abs() + d.abs()) / (2 * d.abs());
    if (n >= 0) == (d > 0) {
        q
    } else {
        -q
    }
}

fn in_border(b: &Border, c: (i64, i64)) -> bool {
    b.left as i64 <= c.0 && c.0 <= b.right as i64 && b.bottom as i64 <= c.1 && c.1 <= b.top as i64
}

fn between(p0: (i64, i64), p1: (i64, i64), c: (i64, i64)) -> bool {
    if (p1.0 - p0.0).abs() >= (p1.1 - p0.1).abs() {
        (p0.0 < c.0 && c.0 < p1.0) || (p1.0 < c.0 && c.0 < p0.0)
    } else {
        (p0.1 < c.1 && c.1 < p1.1) || (p1.1 < c.1 && c.1 < p0.1)
    }
}

fn reference_clip(p0: (i64, i64), p1: (i64, i64), b: &Border) -> Option<((i64, i64), (i64, i64))> {
    let (top, bottom, left, right) = (b.top as i64, b.bottom as i64, b.left as i64, b.right as i64);
    if in_border(b, p0) && in_border(b, p1) {
        return Some((p0, p1));
    }
    let beyond = (p0.1 > top && p1.1 > top)
        || (p0.1 < bottom && p1.1 < bottom)
        || (p0.0 > right && p1.0 > right)
        || (p0.0 < left && p1.0 < left);
    if beyond {
        return None;
    }
    let (dx, dy) = (p1.0 - p0.0, p1.1 - p0.1);
    let crossings: Vec<(i64, i64)> = if dx == 0 {
        vec![(p0.0, bottom), (p0.0, top)]
    } else if dy == 0 {
        vec![(left, p0.1), (right, p0.1)]
    } else {
        vec![
            (left, nearest_away(p0.1 * dx + (left - p0.0) * dy, dx)),
            (nearest_away(p0.0 * dy + (top - p0.1) * dx, dy), top),
            (nearest_away(p0.0 * dy + (bottom - p0.1) * dx, dy), bottom),
            (right, nearest_away(p0.1 * dx + (right - p0.0) * dy, dx)),
        ]
    };
    let hits: Vec<(i64, i64)> = crossings.iter().copied().filter(|&c| in_border(b, c)).collect();
    if in_border(b, p0) {
        let other = hits.iter().copied().find(|&c| between(p0, p1, c)).unwrap_or(p0);
        Some((p0, other))
    } else if in_border(b, p1) {
        let other = hits.iter().copied().find(|&c| between(p0, p1, c)).unwrap_or(p1);
        Some((other, p1))
    } else if hits.is_empty() {
        None
    } else {
        Some((hits[0], *hits.get(1).unwrap_or(&hits[0])))
    }
}

fn wide(p: Point) -> (i64, i64) {
    (p.0 as i64, p.1 as i64)
}

#[test]
fn clipping_matches_the_rule_for_all_small_segments() {
    let border = Border { top: 6, bottom: 1, left: 2, right: 9 };
    for x0 in -3..14 {
        for y0 in -3..11 {
            for x1 in -3..14 {
                for y1 in -3..11 {
                    let got = clip((x0, y0), (x1, y1), &border).map(|e| (wide(e.0), wide(e.1)));
                    let expected = reference_clip(wide((x0, y0)), wide((x1, y1)), &border);
                    assert_eq!(got, expected, "{:?}", (x0, y0, x1, y1));
                }
            }
        }
    }
}

#[test]
fn a_cut_end_lies_on_a_side_for_all_small_segments() {
    let border = Border { top: 6, bottom: 1, left: 2, right: 9 };
    let on_side = |p: Point| p.0 == 2 || p.0 == 9 || p.1 == 1 || p.1 == 6;
    let inside = |p: Point| 2 <= p.0 && p.0 <= 9 && 1 <= p.1 && p.1 <= 6;
    for x0 in 2..=9 {
        for y0 in 1..=6 {
            for x1 in -20..30 {
                for y1 in -20..30 {
                    let (p0, p1) = ((x0, y0), (x1, y1));
                    if inside(p1) {
                        continue;
                    }
                    let (kept, cut) = clip(p0, p1, &border).expect("something is shown");
                    assert_eq!(kept, p0);
                    assert!(on_side(cut) && inside(cut), "{:?} {:?} {:?}", p0, p1, cut);
                    let (cut, kept) = clip(p1, p0, &border).expect("something is shown");
                    assert_eq!(kept, p0);
                    assert!(on_side(cut) && inside(cut), "{:?} {:?} {:?}", p1, p0, cut);
                }
            }
        }
    }
}

fn similar(a: Rgba, b: Rgba) -> bool {
    let d: i32 = (0..3).map(|i| (a[i] as i32 - b[i] as i32).abs()).sum();
    100 * d < 5 * 765
}

/// The region of a flood fill, found by repeated sweeps until nothing is added.
fn reference_fill(image: &Image, seed: Point, color: Rgba, n4: bool) -> Image {
    let mut result = image.clone();
    let (h, w) = (image.len() as i32, image[0].len() as i32);
    if seed.0 < 0 || seed.1 < 0 || seed.0 >= w || seed.1 >= h {
        return result;
    }
    let like = image[seed.1 as usize][seed.0 as usize];
    if like == color {
        return result;
    }
    let mut reached = vec![vec![false; w as usize]; h as usize];
    reached[seed.1 as usize][seed.0 as usize] = true;
    let mut grew = true;
    while grew {
        grew = false;
        for y in 0..h {
            for x in 0..w {
                let here = image[y as usize][x as usize];
                if reached[y as usize][x as usize] || here == color || !similar(here, like) {
                    continue;
                }
                for dx in -1..=1 {
                    for dy in -1..=1 {
                        if (dx, dy) == (0, 0) || (n4 && dx != 0 && dy != 0) {
                            continue;
                        }
                        let (nx, ny) = (x + dx, y + dy);
                        if nx >= 0 && ny >= 0 && nx < w && ny < h && reached[ny as usize][nx as usize] {
                            reached[y as usize][x as usize] = true;
                            grew = true;
                        }
                    }
                }
            }
        }
    }
    for y in 0..h as usize {
        for x in 0..w as usize {
            if reached[y][x] {
                result[y][x] = color;
            }
        }
    }
    result
}

/// A scrambled picture of four colours, two of them similar to one another.
fn pattern(width: usize, height: usize, salt: u32) -> Image {
    let shades: [Rgba; 4] = [WHITE, [250, 250, 250, 255], BLACK, GREEN];
    let mut state = salt.wrapping_mul(2654435761).wrapping_add(12345);
    let mut image = canvas(width, height);
    for row in image.iter_mut() {
        for pixel in row.iter_mut() {
            state = state.wrapping_mul(1664525).wrapping_add(1013904223);
            let pick = (state >> 24) % 7;
            *pixel = shades[if pick < 3 { 0 } else if pick < 4 { 1 } else if pick < 6 { 2 } else { 3 }];
        }
    }
    image
}

#[test]
fn flood_fill_matches_reachability_on_scrambled_pictures() {
    for salt in 0..40 {
        let image = pattern(9, 7, salt);
        for seed in [(0, 0), (4, 3), (8, 6), (2, 5)] {
            for n4 in [true, false] {
                let expected = reference_fill(&image, seed, GREEN, n4);
                let got = flood_fill(image.clone(), seed, GREEN, n4);
                assert_eq!(got, expected, "salt {} seed {:?} n4 {}", salt, seed, n4);
                assert_eq!(flood_fill(got.clone(), seed, GREEN, n4), got);
            }
        }
    }
}

fn reference_edge_fill(image: &Image, color: Rgba) -> Image {
    let mut result = image.clone();
    let h = image.len();
    let w = image[0].len();
    let last_row = (0..h).rev().find(|&y| image[y].contains(&color));
    let Some(last_row) = last_row else { return result };
    for x in 0..w {
        let starts = |y: usize| image[y][x] == color && (y == 0 || image[y - 1][x] != color);
        let total = (0..h).filter(|&y| starts(y)).count();
        if total < 2 {
            continue;
        }
        let mut begun = 0;
        for y in 0..=last_row {
            if starts(y) {
                begun += 1;
            }
            if image[y][x] != color && begun % 2 == 1 {
                result[y][x] = color;
            }
        }
    }
    result
}

#[test]
fn edge_fill_matches_the_parity_rule_on_scrambled_pictures() {
    for salt in 0..200 {
        let image = pattern(8, 9, salt);
        assert_eq!(edge_fill(image.clone(), BLACK), reference_edge_fill(&image, BLACK), "salt {}", salt);
        assert_eq!(edge_fill(image.clone(), GREEN), reference_edge_fill(&image, GREEN), "salt {}", salt);
    }
}

#[test]
fn the_depth_test_matches_a_search_for_the_nearest_sample() {
    let colors: [Rgba; 5] = [WHITE, BLACK, GREEN, [1, 2, 3, 4], [9, 9, 9, 9]];
    for salt in 0..60u32 {
        let mut state = salt.wrapping_mul(747796405).wrapping_add(2891336453);
        let mut cloud = Vec::new();
        for i in 0..40 {
            state = state.wrapping_mul(1664525).wrapping_add(1013904223);
            cloud.push(DepthSample {
                x: ((state >> 8) % 7) as i32 - 1,
                y: ((state >> 16) % 7) as i32 - 1,
                depth: ((state >> 24) % 5) as i64 - 2,
                color: colors[i % 5],
            });
        }
        for invert in [false, true] {
            let mut expected = canvas(5, 5);
            for row in 0..5i32 {
                for col in 0..5i32 {
                    let at = if invert { (col, 5 - row) } else { (col, row) };
                    let mut best: Option<&DepthSample> = None;
                    for s in cloud.iter().filter(|s| (s.x, s.y) == at) {
                        if best.map_or(true, |b| s.depth < b.depth) {
                            best = Some(s);
                        }
                    }
                    if let Some(s) = best {
                        expected[row as usize][col as usize] = s.color;
                    }
                }
            }
            let got = print_objects_in_screen(canvas(5, 5), cloud.clone(), invert);
            assert_eq!(got, expected, "salt {} invert {}", salt, invert);
        }
    }
}
