use cglib::common::{Edge, Image, Point, Rgba};
use cglib::project::project_to_2d;

const WHITE: Rgba = [255, 255, 255, 255];
const BLACK: Rgba = [0, 0, 0, 255];

fn canvas(width: usize, height: usize) -> Image {
    vec![vec![WHITE; width]; height]
}

fn pixels_with(image: &Image, color: Rgba) -> Vec<Point> {
    let mut found = Vec::new();
    for (y, row) in image.iter().enumerate() {
        for (x, pixel) in row.iter().enumerate() {
            if *pixel == color {
                found.push((x as i32, y as i32));
            }
        }
    }
    found
}

#[test]
fn heights_are_counted_from_the_lower_edge() {
    let edges: Vec<Edge> = vec![((0, 0), (4, 0))];
    let image = project_to_2d(canvas(5, 4), &edges);
    assert_eq!(pixels_with(&image, BLACK), vec![(0, 3), (1, 3), (2, 3), (3, 3), (4, 3)]);
    let edges: Vec<Edge> = vec![((2, 3), (2, 3))];
    let image = project_to_2d(canvas(5, 4), &edges);
    assert_eq!(pixels_with(&image, BLACK), vec![(2, 0)]);
}

#[test]
fn edges_are_clipped_against_the_canvas() {
    let edges: Vec<Edge> = vec![((1, 1), (1, 10))];
    let image = project_to_2d(canvas(5, 4), &edges);
    assert_eq!(pixels_with(&image, BLACK), vec![(1, 0), (1, 1), (1, 2)]);
    let edges: Vec<Edge> = vec![((-9, 2), (30, 2))];
    let image = project_to_2d(canvas(5, 4), &edges);
    assert_eq!(pixels_with(&image, BLACK), vec![(0, 1), (1, 1), (2, 1), (3, 1), (4, 1)]);
}

#[test]
fn edges_off_the_canvas_are_left_out() {
    let edges: Vec<Edge> = vec![((5, 0), (9, 3)), ((0, 4), (4, 9)), ((-3, -3), (-1, -1))];
    let image = project_to_2d(canvas(5, 4), &edges);
    assert_eq!(image, canvas(5, 4));
}

#[test]
fn all_edges_of_a_wireframe_are_drawn() {
    let edges: Vec<Edge> = vec![((0, 0), (3, 0)), ((3, 0), (3, 3)), ((3, 3), (0, 3)), ((0, 3), (0, 0))];
    let image = project_to_2d(canvas(4, 4), &edges);
    assert_eq!(pixels_with(&image, WHITE), vec![(1, 1), (2, 1), (1, 2), (2, 2)]);
}

#[test]
fn no_edges_and_no_canvas() {
    assert_eq!(project_to_2d(canvas(3, 3), &Vec::new()), canvas(3, 3));
    let edges: Vec<Edge> = vec![((0, 0), (3, 0))];
    assert_eq!(project_to_2d(Vec::new(), &edges), Image::new());
    assert_eq!(project_to_2d(vec![Vec::new(), vec![WHITE]], &edges), vec![Vec::new(), vec![WHITE]]);
}

#[test]
fn heights_beyond_the_coordinate_range_are_held_at_the_limit() {
    // the lower end lies far below the canvas and is cut off at the lower edge
    let edges: Vec<Edge> = vec![((2, 2), (2, i32::MIN))];
    let image = project_to_2d(canvas(5, 4), &edges);
    assert_eq!(pixels_with(&image, BLACK), vec![(2, 1), (2, 2), (2, 3)]);
}
