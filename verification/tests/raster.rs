use dynops::locations::LocationClass;
use dynops::raster::{class_color, frame_pixel, line_pixels, LINE_SPAN_LIMIT};

#[test]
fn shallow_line_rounds_to_nearest_row() {
    assert_eq!(
        line_pixels((0, 0), (3, 1)),
        vec![(0, 0), (1, 0), (2, 1), (3, 1)]
    );
}

#[test]
fn steep_line_walks_along_y() {
    assert_eq!(
        line_pixels((0, 0), (1, 3)),
        vec![(0, 0), (0, 1), (1, 2), (1, 3)]
    );
}

#[test]
fn reversed_line_walks_backwards() {
    assert_eq!(
        line_pixels((3, 1), (0, 0)),
        vec![(3, 1), (2, 1), (1, 0), (0, 0)]
    );
}

#[test]
fn diagonal_line_moves_both_axes_each_step() {
    assert_eq!(
        line_pixels((2, 2), (-1, -1)),
        vec![(2, 2), (1, 1), (0, 0), (-1, -1)]
    );
}

#[test]
fn degenerate_line_is_one_pixel() {
    assert_eq!(line_pixels((7, -4), (7, -4)), vec![(7, -4)]);
}

#[test]
fn axis_aligned_lines() {
    assert_eq!(line_pixels((0, 5), (0, 8)), vec![(0, 5), (0, 6), (0, 7), (0, 8)]);
    assert_eq!(line_pixels((4, 0), (1, 0)), vec![(4, 0), (3, 0), (2, 0), (1, 0)]);
}

#[test]
fn line_ends_at_both_points_without_gaps() {
    let from = (-13, 40);
    let to = (29, 10);
    let pixels = line_pixels(from, to);
    assert_eq!(pixels.len(), 43);
    assert_eq!(pixels[0], from);
    assert_eq!(*pixels.last().unwrap(), to);
    for pair in pixels.windows(2) {
        assert!((pair[1].0 - pair[0].0).abs() == 1);
        assert!((pair[1].1 - pair[0].1).abs() <= 1);
    }
}

#[test]
fn frame_drops_pixels_outside() {
    assert_eq!(frame_pixel(0, 0, 10, 5), Some((0, 0)));
    assert_eq!(frame_pixel(9, 4, 10, 5), Some((9, 4)));
    assert_eq!(frame_pixel(10, 4, 10, 5), None);
    assert_eq!(frame_pixel(9, 5, 10, 5), None);
    assert_eq!(frame_pixel(-1, 0, 10, 5), None);
    assert_eq!(frame_pixel(0, -1, 10, 5), None);
    assert_eq!(frame_pixel(1 << 32, 0, 10, 5), None);
}

#[test]
fn class_colors_by_size() {
    assert_eq!(class_color(LocationClass::Farm), [255, 255, 0, 255]);
    assert_eq!(class_color(LocationClass::Hamlet), [255, 165, 0, 255]);
    assert_eq!(class_color(LocationClass::Village), [255, 0, 0, 255]);
    assert_eq!(class_color(LocationClass::Town), [255, 0, 255, 255]);
    assert_eq!(class_color(LocationClass::City), [0, 128, 255, 255]);
}

#[test]
fn span_limit_is_a_third_of_i64() {
    assert_eq!(LINE_SPAN_LIMIT, i64::MAX / 3);
    let far = LINE_SPAN_LIMIT;
    assert_eq!(line_pixels((far, 0), (far - 2, 1)), vec![(far, 0), (far - 1, 1), (far - 2, 1)]);
}
