use box_counting::raster::{area, Raster};

fn ramp(width: u32, height: u32) -> Vec<u8> {
    (0..(width * height)).map(|i| (i % 251) as u8).collect()
}

#[test]
fn from_pixels_keeps_dimensions_and_pixels() {
    let data = ramp(5, 3);
    let img = Raster::from_pixels(5, 3, data.clone()).unwrap();
    assert_eq!(img.width(), 5);
    assert_eq!(img.height(), 3);
    assert_eq!(img.to_pixels(), data);
}

#[test]
fn from_pixels_wants_one_byte_per_pixel() {
    assert!(Raster::from_pixels(5, 3, vec![0; 14]).is_none());
    assert!(Raster::from_pixels(5, 3, vec![0; 16]).is_none());
    assert!(Raster::from_pixels(5, 3, vec![0; 15]).is_some());
    assert!(Raster::from_pixels(0, 0, vec![7]).is_none());
    assert!(Raster::from_pixels(u32::MAX, u32::MAX, vec![0; 4]).is_none());
}

#[test]
fn empty_rasters_keep_their_dimensions() {
    let flat = Raster::from_pixels(7, 0, Vec::new()).unwrap();
    assert_eq!((flat.width(), flat.height()), (7, 0));
    assert_eq!(flat.to_pixels(), Vec::<u8>::new());
    let thin = Raster::from_pixels(0, 9, Vec::new()).unwrap();
    assert_eq!((thin.width(), thin.height()), (0, 9));
    assert_eq!(thin.get(0, 0), None);
}

#[test]
fn pixels_are_stored_row_by_row() {
    let img = Raster::from_pixels(3, 2, vec![10, 11, 12, 20, 21, 22]).unwrap();
    assert_eq!(img.pixel_at(0, 0), 10);
    assert_eq!(img.pixel_at(2, 0), 12);
    assert_eq!(img.pixel_at(0, 1), 20);
    assert_eq!(img.pixel_at(2, 1), 22);
    assert_eq!(img.get(1, 1), Some(21));
}

#[test]
fn get_outside_the_raster_is_none() {
    let img = Raster::from_pixels(3, 2, vec![1; 6]).unwrap();
    assert_eq!(img.get(3, 0), None);
    assert_eq!(img.get(0, 2), None);
    assert_eq!(img.get(u32::MAX, u32::MAX), None);
}

#[test]
fn set_overwrites_one_pixel() {
    let mut img = Raster::from_pixels(3, 2, vec![0; 6]).unwrap();
    assert!(img.set(1, 1, 200));
    assert_eq!(img.to_pixels(), vec![0, 0, 0, 0, 200, 0]);
    assert_eq!((img.width(), img.height()), (3, 2));
}

#[test]
fn set_outside_the_raster_writes_nothing() {
    let mut img = Raster::from_pixels(3, 2, vec![5; 6]).unwrap();
    assert!(!img.set(3, 0, 9));
    assert!(!img.set(0, 2, 9));
    assert_eq!(img.to_pixels(), vec![5; 6]);
}

#[test]
fn clone_is_a_copy_of_its_own() {
    let img = Raster::from_pixels(2, 2, vec![1, 2, 3, 4]).unwrap();
    let mut copy = img.clone();
    assert_eq!((copy.width(), copy.height()), (2, 2));
    assert_eq!(copy.to_pixels(), vec![1, 2, 3, 4]);
    assert!(copy.set(0, 0, 99));
    assert_eq!(img.to_pixels(), vec![1, 2, 3, 4]);
    assert_eq!(copy.to_pixels(), vec![99, 2, 3, 4]);
}

#[test]
fn area_is_the_product() {
    assert_eq!(area(0, 17), 0);
    assert_eq!(area(256, 256), 65536);
    assert_eq!(area(u32::MAX, u32::MAX), 18446744065119617025);
}
