use cglib::common::{Image, Point, Rgba};
use cglib::line::{draw_line, draw_line_bresenham, draw_triangle, select_area};

const WHITE: Rgba = [255, 255, 255, 255];
const BLACK: Rgba = [0, 0, 0, 255];

fn canvas(width: usize, height: usize) -> Image {
    vec![vec![WHITE; width]; height]
}

/// The pixels of the canvas that have the colour, row by row.
fn pixels_with(image: &Image, color: Rgba) -> Vec<Point> {
    let mut found = Vec::new();
    for (y, row) in image.iter().enumerate() {
        for (x, pixel) in row.iter().enumerate() {
            if *pixel == color {
                found.push((x as i32, y as i32));
            }
        }
    }
    found
}

fn sorted(mut points: Vec<Point>) -> Vec<Point> {
    points.sort_by_key(|p| (p.1, p.0));
    points
}

#[test]
fn draw_line_paints_the_diagonal() {
    let image = draw_line(canvas(10, 10), (1, 1), (8, 8), BLACK);
    let expected: Vec<Point> = (1..=8).map(|i| (i, i)).collect();
    assert_eq!(pixels_with(&image, BLACK), expected);
}

#[test]
fn draw_line_bresenham_paints_the_diagonal() {
    let image = draw_line_bresenham(canvas(10, 10), (1, 1), (8, 8), BLACK);
    let expected: Vec<Point> = (1..=8).map(|i| (i, i)).collect();
    assert_eq!(pixels_with(&image, BLACK), expected);
}

#[test]
fn draw_line_leaves_other_pixels_alone() {
    let image = draw_line(canvas(10, 10), (1, 1), (8, 8), BLACK);
    assert_eq!(pixels_with(&image, WHITE).len(), 100 - 8);
    assert_eq!(image.len(), 10);
    assert!(image.iter().all(|row| row.len() == 10));
}

#[test]
fn draw_line_is_the_same_from_either_end() {
    let ends: [(Point, Point); 12] = [
        ((0, 0), (9, 3)),
        ((0, 0), (3, 9)),
        ((9, 0), (0, 3)),
        ((9, 0), (6, 9)),
        ((0, 9), (9, 6)),
        ((0, 9), (3, 0)),
        ((2, 2), (7, 3)),
        ((2, 2), (3, 7)),
        ((0, 0), (2, 1)),
        ((0, 0), (1, 2)),
        ((1, 8), (8, 1)),
        ((4, 0), (4, 9)),
    ];
    for (p0, p1) in ends {
        let forward = draw_line(canvas(10, 10), p0, p1, BLACK);
        let backward = draw_line(canvas(10, 10), p1, p0, BLACK);
        assert_eq!(forward, backward, "{:?} {:?}", p0, p1);
        let forward = draw_line_bresenham(canvas(10, 10), p0, p1, BLACK);
        let backward = draw_line_bresenham(canvas(10, 10), p1, p0, BLACK);
        assert_eq!(forward, backward, "{:?} {:?}", p0, p1);
    }
}

#[test]
fn both_line_methods_set_the_same_pixels() {
    for x1 in -3..13 {
        for y1 in -3..13 {
            let direct = draw_line(canvas(10, 10), (4, 5), (x1, y1), BLACK);
            let stepped = draw_line_bresenham(canvas(10, 10), (4, 5), (x1, y1), BLACK);
            assert_eq!(direct, stepped, "to {:?}", (x1, y1));
        }
    }
}

#[test]
fn shallow_line_takes_the_nearest_pixel_of_each_column() {
    // the line rises one pixel over three columns
    let image = draw_line_bresenham(canvas(5, 5), (0, 0), (3, 1), BLACK);
    assert_eq!(pixels_with(&image, BLACK), vec![(0, 0), (1, 0), (2, 1), (3, 1)]);
}

#[test]
fn steep_line_takes_the_nearest_pixel_of_each_row() {
    let image = draw_line(canvas(5, 5), (0, 0), (1, 3), BLACK);
    assert_eq!(pixels_with(&image, BLACK), vec![(0, 0), (0, 1), (1, 2), (1, 3)]);
}

#[test]
fn a_line_midway_between_two_pixels_takes_the_larger_coordinate() {
    // at column 1 the line from (0, 0) to (2, 1) passes at height one half
    let image = draw_line(canvas(4, 4), (0, 0), (2, 1), BLACK);
    assert_eq!(pixels_with(&image, BLACK), vec![(0, 0), (1, 1), (2, 1)]);
    let image = draw_line_bresenham(canvas(4, 4), (2, 1), (0, 0), BLACK);
    assert_eq!(pixels_with(&image, BLACK), vec![(0, 0), (1, 1), (2, 1)]);
    // the same for a falling line
    let image = draw_line(canvas(4, 4), (0, 1), (2, 0), BLACK);
    assert_eq!(sorted(pixels_with(&image, BLACK)), vec![(2, 0), (0, 1), (1, 1)]);
}

#[test]
fn a_line_of_one_point_sets_that_point() {
    let image = draw_line(canvas(4, 4), (2, 3), (2, 3), BLACK);
    assert_eq!(pixels_with(&image, BLACK), vec![(2, 3)]);
    let image = draw_line_bresenham(canvas(4, 4), (2, 3), (2, 3), BLACK);
    assert_eq!(pixels_with(&image, BLACK), vec![(2, 3)]);
}

#[test]
fn pixels_off_the_canvas_are_skipped() {
    let image = draw_line(canvas(6, 4), (-5, 2), (14, 2), BLACK);
    let expected: Vec<Point> = (0..6).map(|x| (x, 2)).collect();
    assert_eq!(pixels_with(&image, BLACK), expected);
    let image = draw_line_bresenham(canvas(6, 4), (-3, -3), (8, 8), BLACK);
    assert_eq!(pixels_with(&image, BLACK), vec![(0, 0), (1, 1), (2, 2), (3, 3)]);
    let image = draw_line(canvas(6, 4), (-9, -1), (-2, -7), BLACK);
    assert_eq!(pixels_with(&image, BLACK), vec![]);
}

#[test]
fn drawing_on_an_empty_canvas_does_nothing() {
    let image = draw_line(Vec::new(), (0, 0), (5, 5), BLACK);
    assert!(image.is_empty());
    let image = draw_line_bresenham(vec![Vec::new(), Vec::new()], (0, 0), (5, 5), BLACK);
    assert_eq!(image, vec![Vec::<Rgba>::new(), Vec::new()]);
}

#[test]
fn rows_of_different_lengths_are_clipped_one_by_one() {
    let image: Image = vec![vec![WHITE; 5], vec![WHITE; 2], vec![WHITE; 5]];
    let image = draw_line(image, (3, 0), (3, 2), BLACK);
    assert_eq!(pixels_with(&image, BLACK), vec![(3, 0), (3, 2)]);
    assert_eq!(image[1].len(), 2);
}

#[test]
fn a_far_line_near_the_limits_of_the_coordinates_is_drawn() {
    let image = draw_line_bresenham(canvas(3, 3), (i32::MIN, 1), (2, 1), BLACK);
    assert_eq!(pixels_with(&image, BLACK), vec![(0, 1), (1, 1), (2, 1)]);
}

#[test]
fn draw_triangle_draws_its_three_sides() {
    let image = draw_triangle(canvas(6, 6), (0, 0), (4, 0), (0, 4), BLACK);
    let expected = sorted(vec![
        (0, 0), (1, 0), (2, 0), (3, 0), (4, 0),
        (0, 1), (0, 2), (0, 3), (0, 4),
        (3, 1), (2, 2), (1, 3),
    ]);
    assert_eq!(pixels_with(&image, BLACK), expected);
}

#[test]
fn select_area_draws_a_clear_outline() {
    let clear: Rgba = [0, 0, 0, 0];
    let image = select_area(canvas(6, 5), (1, 1), (4, 3));
    let expected = sorted(vec![
        (1, 1), (2, 1), (3, 1), (4, 1),
        (1, 2), (4, 2),
        (1, 3), (2, 3), (3, 3), (4, 3),
    ]);
    assert_eq!(pixels_with(&image, clear), expected);
    // the same outline from the other two corners
    let other = select_area(canvas(6, 5), (4, 1), (1, 3));
    assert_eq!(image, other);
}
