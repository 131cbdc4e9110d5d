use cglib::common::{Image, Neighborhood, Point, Rgba};
use cglib::fill::{
    edge_fill, flood_fill, get_bounding_box, get_neighbors, get_neighbors_4, get_neighbors_8,
    is_similar_color,
};
use cglib::line::{draw_line, draw_triangle, select_area};

const WHITE: Rgba = [255, 255, 255, 255];
const BLACK: Rgba = [0, 0, 0, 255];
const GREEN: Rgba = [0, 200, 0, 255];

fn canvas(width: usize, height: usize) -> Image {
    vec![vec![WHITE; width]; height]
}

fn pixels_with(image: &Image, color: Rgba) -> Vec<Point> {
    let mut found = Vec::new();
    for (y, row) in image.iter().enumerate() {
        for (x, pixel) in row.iter().enumerate() {
            if *pixel == color {
                found.push((x as i32, y as i32));
            }
        }
    }
    found
}

/// A canvas from rows of characters: `#` is black, `.` is white.
fn picture(rows: &[&str]) -> Image {
    rows.iter()
        .map(|row| row.chars().map(|c| if c == '#' { BLACK } else { WHITE }).collect())
        .collect()
}

/// The canvas as rows of characters: `#` black, `.` white, `o` green.
fn show(image: &Image) -> Vec<String> {
    image
        .iter()
        .map(|row| {
            row.iter()
                .map(|p| if *p == BLACK { '#' } else if *p == GREEN { 'o' } else if *p == WHITE { '.' } else { '?' })
                .collect()
        })
        .collect()
}

#[test]
fn flood_fill_fills_the_inside_of_a_box() {
    let image = picture(&[
        ".......",
        ".#####.",
        ".#...#.",
        ".#...#.",
        ".#####.",
        ".......",
    ]);
    let filled = flood_fill(image, (3, 2), GREEN, true);
    assert_eq!(
        show(&filled),
        vec![".......", ".#####.", ".#ooo#.", ".#ooo#.", ".#####.", "......."]
    );
}

#[test]
fn flood_fill_fills_the_outside_of_a_box() {
    let image = picture(&[
        ".......",
        ".#####.",
        ".#...#.",
        ".#####.",
        ".......",
    ]);
    let filled = flood_fill(image, (0, 0), GREEN, false);
    assert_eq!(show(&filled), vec!["ooooooo", "o#####o", "o#...#o", "o#####o", "ooooooo"]);
}

#[test]
fn four_neighbours_do_not_pass_a_diagonal_gap() {
    let rows = [
        "..#..",
        ".#...",
        "#....",
        ".....",
    ];
    let four = flood_fill(picture(&rows), (0, 0), GREEN, true);
    assert_eq!(show(&four), vec!["oo#..", "o#...", "#....", "....."]);
    let eight = flood_fill(picture(&rows), (0, 0), GREEN, false);
    assert_eq!(show(&eight), vec!["oo#oo", "o#ooo", "#oooo", "ooooo"]);
}

#[test]
fn flood_fill_twice_is_flood_fill_once() {
    let rows = [
        ".......",
        ".#####.",
        ".#...#.",
        ".#.#.#.",
        ".#####.",
    ];
    for seed in [(3, 2), (0, 0), (1, 1), (6, 4), (3, 3)] {
        for n4 in [true, false] {
            let once = flood_fill(picture(&rows), seed, GREEN, n4);
            let twice = flood_fill(once.clone(), seed, GREEN, n4);
            assert_eq!(once, twice);
        }
    }
}

#[test]
fn flood_fill_from_a_pixel_of_the_fill_colour_changes_nothing() {
    let image = picture(&["..#..", "..#..", "..#.."]);
    let filled = flood_fill(image.clone(), (2, 1), BLACK, true);
    assert_eq!(filled, image);
}

#[test]
fn flood_fill_from_a_seed_off_the_canvas_changes_nothing() {
    let image = picture(&["..#..", "..#..", "..#.."]);
    for seed in [(-1, 0), (0, -1), (5, 0), (0, 3), (i32::MAX, i32::MAX), (i32::MIN, 1)] {
        assert_eq!(flood_fill(image.clone(), seed, GREEN, true), image);
    }
    assert_eq!(flood_fill(Vec::new(), (0, 0), GREEN, true), Image::new());
}

#[test]
fn flood_fill_stops_at_colours_that_are_not_similar_to_the_seed() {
    // the channel differences to the seed's colour add up to 38 and to 39
    let seed: Rgba = [100, 100, 100, 255];
    let near: Rgba = [138, 100, 100, 255];
    let far: Rgba = [139, 100, 100, 255];
    let image: Image = vec![vec![far, seed, near, near, far, near]];
    let filled = flood_fill(image, (1, 0), GREEN, true);
    assert_eq!(filled, vec![vec![far, GREEN, GREEN, GREEN, far, near]]);
}

#[test]
fn similarity_is_to_the_seed_not_to_the_neighbour() {
    // each step differs by 30 from the one before, the third by 60 from the seed
    let a: Rgba = [100, 100, 100, 255];
    let b: Rgba = [130, 100, 100, 255];
    let c: Rgba = [160, 100, 100, 255];
    let filled = flood_fill(vec![vec![a, b, c]], (0, 0), GREEN, true);
    assert_eq!(filled, vec![vec![GREEN, GREEN, c]]);
}

#[test]
fn flood_fill_ignores_alpha_when_comparing() {
    let seed: Rgba = [10, 20, 30, 255];
    let faint: Rgba = [10, 20, 30, 0];
    let filled = flood_fill(vec![vec![seed, faint]], (0, 0), GREEN, true);
    assert_eq!(filled, vec![vec![GREEN, GREEN]]);
}

#[test]
fn similar_colours() {
    let base: Rgba = [100, 100, 100, 255];
    assert!(is_similar_color(base, base, 5));
    assert!(is_similar_color(base, [138, 100, 100, 255], 5));
    assert!(is_similar_color(base, [90, 110, 118, 7], 5));
    assert!(!is_similar_color(base, [139, 100, 100, 255], 5));
    assert!(!is_similar_color(base, [87, 113, 113, 255], 5));
    assert!(!is_similar_color(base, base, 0));
    // twenty percent of 765 is 153
    assert!(is_similar_color([0, 0, 0, 0], [152, 0, 0, 0], 20));
    assert!(!is_similar_color([0, 0, 0, 0], [153, 0, 0, 0], 20));
    assert!(is_similar_color([0, 0, 0, 0], [255, 255, 254, 0], 100));
    assert!(!is_similar_color([0, 0, 0, 0], [255, 255, 255, 0], 100));
    assert!(is_similar_color([0, 0, 0, 0], [255, 255, 255, 0], u32::MAX));
}

#[test]
fn neighbours() {
    assert_eq!(get_neighbors_4((5, 7)), vec![(4, 7), (5, 6), (5, 8), (6, 7)]);
    assert_eq!(
        get_neighbors_8((5, 7)),
        vec![(4, 6), (4, 7), (4, 8), (5, 6), (5, 8), (6, 6), (6, 7), (6, 8)]
    );
    assert_eq!(
        get_neighbors_4((i32::MAX, i32::MIN)),
        vec![
            (2147483646, -2147483648),
            (2147483647, -2147483649),
            (2147483647, -2147483647),
            (2147483648, -2147483648)
        ]
    );
}

#[test]
fn edge_fill_fills_a_drawn_rectangle() {
    let image = picture(&[
        ".......",
        ".#####.",
        ".#...#.",
        ".#...#.",
        ".#####.",
        ".......",
    ]);
    let filled = edge_fill(image, BLACK);
    assert_eq!(
        show(&filled),
        vec![".......", ".#####.", ".#####.", ".#####.", ".#####.", "......."]
    );
}

#[test]
fn edge_fill_skips_columns_with_a_single_run() {
    let image = picture(&[
        ".###.",
        ".#.#.",
        ".###.",
        ".....",
        "#####",
    ]);
    let filled = edge_fill(image, BLACK);
    // the outer columns hold one run each and are left alone; columns 1 and 3 hold two
    // runs and are filled between them; column 2 holds three, and is filled after the
    // first only
    assert_eq!(show(&filled), vec![".###.", ".###.", ".###.", ".#.#.", "#####"]);
}

#[test]
fn edge_fill_sets_nothing_below_the_last_row_of_the_colour() {
    // three runs begin in the column, so its last pixel lies inside by parity
    let image = picture(&["#.", "..", "#.", "..", "#.", ".."]);
    let filled = edge_fill(image, BLACK);
    assert_eq!(show(&filled), vec!["#.", "#.", "#.", "..", "#.", ".."]);
}

#[test]
fn edge_fill_follows_the_parity_of_runs() {
    let image = picture(&[
        "#",
        ".",
        "#",
        ".",
        "#",
        ".",
        "#",
    ]);
    let filled = edge_fill(image, BLACK);
    assert_eq!(show(&filled), vec!["#", "#", "#", ".", "#", "#", "#"]);
}

#[test]
fn edge_fill_leaves_a_flat_line_alone() {
    let image = picture(&["....", "####", "....", "...."]);
    assert_eq!(edge_fill(image.clone(), BLACK), image);
}

#[test]
fn edge_fill_without_the_colour_changes_nothing() {
    let image = picture(&["....", "....", "...."]);
    assert_eq!(edge_fill(image.clone(), BLACK), image);
    assert_eq!(edge_fill(Vec::new(), BLACK), Image::new());
}

#[test]
fn edge_fill_fills_a_drawn_triangle() {
    let outline = draw_triangle(canvas(9, 7), (1, 1), (7, 1), (1, 5), BLACK);
    let filled = edge_fill(outline.clone(), BLACK);
    // every pixel that was black stays black
    for p in pixels_with(&outline, BLACK) {
        assert_eq!(filled[p.1 as usize][p.0 as usize], BLACK);
    }
    // column 2 holds the top side at row 1 and the slanted side at row 4
    assert_eq!(filled[2][2], BLACK);
    assert_eq!(filled[3][2], BLACK);
    assert_eq!(filled[5][2], WHITE);
    // nothing outside the bounding box changes
    assert_eq!(filled[0], vec![WHITE; 9]);
    assert_eq!(filled[6], vec![WHITE; 9]);
}

#[test]
fn bounding_box_of_a_colour() {
    let image = select_area(canvas(9, 7), (2, 1), (6, 4));
    assert_eq!(get_bounding_box(&image, &[0, 0, 0, 0]), Some((2, 6, 1, 4)));
    assert_eq!(get_bounding_box(&image, &BLACK), None);
    let one = draw_line(canvas(9, 7), (8, 6), (8, 6), BLACK);
    assert_eq!(get_bounding_box(&one, &BLACK), Some((8, 8, 6, 6)));
    let diagonal = draw_line(canvas(9, 7), (5, 0), (0, 5), BLACK);
    assert_eq!(get_bounding_box(&diagonal, &BLACK), Some((0, 5, 0, 5)));
    assert_eq!(get_bounding_box(&Vec::new(), &BLACK), None);
}

#[test]
fn edge_fill_on_rows_of_different_lengths() {
    let image: Image = vec![vec![BLACK, BLACK], vec![WHITE], vec![BLACK, BLACK]];
    let filled = edge_fill(image, BLACK);
    // the second column has no pixel in the middle row: its two runs begin, nothing is set there
    assert_eq!(filled, vec![vec![BLACK, BLACK], vec![BLACK], vec![BLACK, BLACK]]);
}

#[test]
fn neighbours_by_neighbourhood() {
    assert_eq!(get_neighbors((0, 0), Neighborhood::Four), get_neighbors_4((0, 0)));
    assert_eq!(get_neighbors((0, 0), Neighborhood::Eight), get_neighbors_8((0, 0)));
    assert_eq!(get_neighbors((-3, 9), Neighborhood::Four).len(), 4);
    assert_eq!(get_neighbors((-3, 9), Neighborhood::Eight).len(), 8);
}
