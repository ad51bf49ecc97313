use box_counting::counting::{count_occupied_cells, Color};
use box_counting::raster::Raster;

fn raster_with(width: u32, height: u32, white: &[(u32, u32)]) -> Raster {
    let mut img = Raster::from_pixels(width, height, vec![0; (width * height) as usize]).unwrap();
    for &(x, y) in white {
        assert!(img.set(x, y, 255));
    }
    img
}

#[test]
fn color_values() {
    assert_eq!(Color::White.value(), 255);
    assert_eq!(Color::Black.value(), 0);
}

#[test]
fn covering_box_counts_one() {
    let img = raster_with(5, 3, &[(4, 2)]);
    assert_eq!(count_occupied_cells(&img, 5, Color::White), 1);
    assert_eq!(count_occupied_cells(&img, 6, Color::White), 1);
    assert_eq!(count_occupied_cells(&img, u32::MAX, Color::White), 1);
    assert_eq!(count_occupied_cells(&img, 5, Color::Black), 1);
}

#[test]
fn covering_box_without_the_color_counts_none() {
    let img = raster_with(5, 3, &[]);
    assert_eq!(count_occupied_cells(&img, 8, Color::White), 0);
    assert_eq!(count_occupied_cells(&img, 8, Color::Black), 1);
}

#[test]
fn unit_boxes_count_pixels() {
    let white = [(0, 0), (1, 0), (3, 2), (4, 4), (2, 3)];
    let img = raster_with(5, 5, &white);
    assert_eq!(count_occupied_cells(&img, 1, Color::White), 5);
    assert_eq!(count_occupied_cells(&img, 1, Color::Black), 20);
}

#[test]
fn partial_cells_at_the_border_are_counted() {
    // 5 by 5 with boxes of side 2: three cells along each axis, the last
    // ones one pixel wide.
    let img = raster_with(5, 5, &[(4, 4)]);
    assert_eq!(count_occupied_cells(&img, 2, Color::White), 1);
    assert_eq!(count_occupied_cells(&img, 2, Color::Black), 8);
    let corners = raster_with(5, 5, &[(0, 0), (4, 0), (0, 4), (4, 4)]);
    assert_eq!(count_occupied_cells(&corners, 2, Color::White), 4);
    assert_eq!(count_occupied_cells(&corners, 2, Color::Black), 8);
    assert_eq!(count_occupied_cells(&corners, 3, Color::White), 4);
    assert_eq!(count_occupied_cells(&corners, 4, Color::White), 4);
}

#[test]
fn pixels_in_one_cell_count_once() {
    let img = raster_with(8, 8, &[(0, 0), (1, 1), (3, 3), (2, 3)]);
    assert_eq!(count_occupied_cells(&img, 4, Color::White), 1);
    assert_eq!(count_occupied_cells(&img, 2, Color::White), 2);
    assert_eq!(count_occupied_cells(&img, 1, Color::White), 4);
}

#[test]
fn empty_rasters_have_no_cells() {
    let none = Raster::from_pixels(0, 0, Vec::new()).unwrap();
    assert_eq!(count_occupied_cells(&none, 1, Color::White), 0);
    assert_eq!(count_occupied_cells(&none, 1, Color::Black), 0);
    let flat = Raster::from_pixels(9, 0, Vec::new()).unwrap();
    assert_eq!(count_occupied_cells(&flat, 2, Color::Black), 0);
}

#[test]
fn gray_pixels_belong_to_neither_color() {
    let img = Raster::from_pixels(2, 2, vec![1, 128, 254, 7]).unwrap();
    assert_eq!(count_occupied_cells(&img, 1, Color::White), 0);
    assert_eq!(count_occupied_cells(&img, 1, Color::Black), 0);
    assert_eq!(count_occupied_cells(&img, 2, Color::White), 0);
}

#[test]
fn nested_box_sizes_never_count_more() {
    let mut white = Vec::new();
    for i in 0..48u32 {
        white.push(((i * 7) % 48, (i * 11 + 3) % 48));
    }
    let img = raster_with(48, 48, &white);
    for color in [Color::White, Color::Black] {
        let mut last = u64::MAX;
        for box_size in [1u32, 2, 4, 8, 16, 48] {
            let count = count_occupied_cells(&img, box_size, color);
            assert!(count <= last);
            last = count;
        }
    }
}

#[test]
fn box_sizes_that_do_not_nest_may_count_more() {
    let img = raster_with(6, 6, &[(2, 0), (3, 0)]);
    assert_eq!(count_occupied_cells(&img, 2, Color::White), 1);
    assert_eq!(count_occupied_cells(&img, 3, Color::White), 2);
}

#[test]
fn checkerboard_counts() {
    let mut white = Vec::new();
    for y in 0..8u32 {
        for x in 0..8u32 {
            if (x + y) % 2 == 0 {
                white.push((x, y));
            }
        }
    }
    let img = raster_with(8, 8, &white);
    assert_eq!(count_occupied_cells(&img, 1, Color::White), 32);
    assert_eq!(count_occupied_cells(&img, 1, Color::Black), 32);
    assert_eq!(count_occupied_cells(&img, 2, Color::White), 16);
    assert_eq!(count_occupied_cells(&img, 3, Color::Black), 9);
    assert_eq!(count_occupied_cells(&img, 8, Color::White), 1);
}
