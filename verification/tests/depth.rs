use cglib::common::{Image, Rgba};
use cglib::depth::{print_objects_in_screen, z_buffer, DepthSample};

const WHITE: Rgba = [255, 255, 255, 255];
const RED: Rgba = [255, 0, 0, 255];
const BLUE: Rgba = [0, 0, 255, 255];
const GREEN: Rgba = [0, 255, 0, 255];

fn canvas(width: usize, height: usize) -> Image {
    vec![vec![WHITE; width]; height]
}

fn sample(x: i32, y: i32, depth: i64, color: Rgba) -> DepthSample {
    DepthSample { x, y, depth, color }
}

fn as_tuples(list: &[DepthSample]) -> Vec<(i32, i32, i64, Rgba)> {
    list.iter().map(|s| (s.x, s.y, s.depth, s.color)).collect()
}

#[test]
fn the_nearer_of_two_samples_is_seen_in_either_order() {
    let near = sample(2, 1, 10, RED);
    let far = sample(2, 1, 20, BLUE);
    let one = print_objects_in_screen(canvas(4, 3), vec![near, far], false);
    let other = print_objects_in_screen(canvas(4, 3), vec![far, near], false);
    assert_eq!(one[1][2], RED);
    assert_eq!(other[1][2], RED);
    assert_eq!(one, other);
}

#[test]
fn of_equally_near_samples_the_first_is_seen() {
    let first = sample(0, 0, 5, RED);
    let second = sample(0, 0, 5, BLUE);
    let image = print_objects_in_screen(canvas(2, 2), vec![first, second], false);
    assert_eq!(image[0][0], RED);
    let image = print_objects_in_screen(canvas(2, 2), vec![second, first], false);
    assert_eq!(image[0][0], BLUE);
}

#[test]
fn negative_depths_are_nearer_than_positive_ones() {
    let image = print_objects_in_screen(
        canvas(1, 1),
        vec![sample(0, 0, 3, RED), sample(0, 0, -3, BLUE), sample(0, 0, i64::MIN, GREEN), sample(0, 0, i64::MAX, RED)],
        false,
    );
    assert_eq!(image[0][0], GREEN);
}

#[test]
fn samples_are_drawn_at_their_pixels() {
    let image = print_objects_in_screen(
        canvas(3, 2),
        vec![sample(0, 0, 1, RED), sample(2, 1, 1, BLUE), sample(1, 0, 9, GREEN)],
        false,
    );
    assert_eq!(image, vec![vec![RED, GREEN, WHITE], vec![WHITE, WHITE, BLUE]]);
}

#[test]
fn with_inversion_heights_are_counted_from_the_lower_edge() {
    let image = print_objects_in_screen(
        canvas(2, 3),
        vec![sample(0, 1, 1, RED), sample(1, 3, 1, BLUE), sample(1, 2, 1, GREEN)],
        true,
    );
    assert_eq!(image, vec![vec![WHITE, BLUE], vec![WHITE, GREEN], vec![RED, WHITE]]);
}

#[test]
fn with_inversion_height_zero_is_below_the_canvas() {
    let image = print_objects_in_screen(
        canvas(2, 3),
        vec![sample(0, 0, 1, RED), sample(0, 4, 1, RED), sample(0, -1, 1, RED)],
        true,
    );
    assert_eq!(image, canvas(2, 3));
}

#[test]
fn samples_off_the_canvas_are_skipped() {
    let image = print_objects_in_screen(
        canvas(2, 2),
        vec![
            sample(-1, 0, 1, RED),
            sample(0, -1, 1, RED),
            sample(2, 0, 1, RED),
            sample(0, 2, 1, RED),
            sample(i32::MAX, i32::MIN, 1, RED),
            sample(i32::MIN, i32::MAX, 1, RED),
        ],
        false,
    );
    assert_eq!(image, canvas(2, 2));
    let image = print_objects_in_screen(Vec::new(), vec![sample(0, 0, 0, RED)], true);
    assert_eq!(image, Image::new());
}

#[test]
fn an_empty_cloud_changes_nothing() {
    assert_eq!(print_objects_in_screen(canvas(3, 3), Vec::new(), false), canvas(3, 3));
    assert_eq!(z_buffer(Vec::new()).len(), 0);
}

#[test]
fn z_buffer_keeps_one_sample_for_each_pixel() {
    let cloud = vec![
        sample(1, 1, 50, RED),
        sample(2, 2, 7, BLUE),
        sample(1, 1, 40, GREEN),
        sample(1, 1, 45, BLUE),
        sample(2, 2, 7, RED),
        sample(-4, 9, 0, GREEN),
        sample(1, 2, 1, RED),
    ];
    let mut kept = as_tuples(&z_buffer(cloud));
    kept.sort();
    assert_eq!(
        kept,
        vec![(-4, 9, 0, GREEN), (1, 1, 40, GREEN), (1, 2, 1, RED), (2, 2, 7, BLUE)]
    );
}

#[test]
fn z_buffer_tells_apart_pixels_that_differ_in_one_coordinate() {
    let cloud = vec![
        sample(0, 1, 1, RED),
        sample(1, 0, 2, BLUE),
        sample(-1, 0, 3, GREEN),
        sample(0, -1, 4, RED),
        sample(i32::MIN, i32::MAX, 5, BLUE),
        sample(i32::MAX, i32::MIN, 6, GREEN),
        sample(i32::MIN, i32::MIN, 7, RED),
        sample(i32::MAX, i32::MAX, 8, BLUE),
    ];
    assert_eq!(z_buffer(cloud.clone()).len(), 8);
    assert_eq!(as_tuples(&z_buffer(cloud.clone())), as_tuples(&cloud));
}

#[test]
fn a_farther_sample_later_in_the_list_is_discarded() {
    let image = print_objects_in_screen(
        canvas(1, 1),
        vec![sample(0, 0, 5, RED), sample(0, 0, 6, BLUE), sample(0, 0, 4, GREEN), sample(0, 0, 4, BLUE)],
        false,
    );
    assert_eq!(image[0][0], GREEN);
}
