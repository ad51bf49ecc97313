use box_counting::binarize::binarize;
use box_counting::counting::{count_occupied_cells, Color};
use box_counting::estimate::{
    collect_samples, validate_box_sizes, validate_samples, EstimateError, Sample,
};
use box_counting::raster::Raster;
use box_counting::regression::fit;

const BOX_SIZES: [u32; 7] = [2, 4, 8, 16, 32, 64, 128];

fn centered_square() -> Raster {
    let mut data = vec![0u8; 256 * 256];
    for y in 64..192usize {
        for x in 64..192usize {
            data[y * 256 + x] = 255;
        }
    }
    Raster::from_pixels(256, 256, data).unwrap()
}

fn scaled_log(value: u64) -> i32 {
    ((value as f64).ln() * 16_777_216.0).round() as i32
}

fn dimension(samples: &[Sample]) -> f64 {
    let xs: Vec<i32> = samples.iter().map(|s| scaled_log(s.box_size as u64)).collect();
    let ys: Vec<i32> = samples.iter().map(|s| scaled_log(s.count)).collect();
    let line = fit(&xs, &ys).unwrap();
    -(line.slope_num as f64 / line.denom as f64)
}

#[test]
fn powers_of_two_are_in_order() {
    assert_eq!(validate_box_sizes(&BOX_SIZES), Ok(()));
}

#[test]
fn box_sizes_need_two_values() {
    assert_eq!(validate_box_sizes(&[]), Err(EstimateError::TooFewBoxSizes));
    assert_eq!(validate_box_sizes(&[8]), Err(EstimateError::TooFewBoxSizes));
    assert_eq!(validate_box_sizes(&[0]), Err(EstimateError::TooFewBoxSizes));
}

#[test]
fn box_sizes_must_be_positive() {
    assert_eq!(validate_box_sizes(&[2, 0, 4]), Err(EstimateError::ZeroBoxSize));
    assert_eq!(validate_box_sizes(&[0, 0]), Err(EstimateError::ZeroBoxSize));
}

#[test]
fn box_sizes_must_not_repeat() {
    assert_eq!(validate_box_sizes(&[2, 4, 2]), Err(EstimateError::RepeatedBoxSize));
    assert_eq!(validate_box_sizes(&[3, 3]), Err(EstimateError::RepeatedBoxSize));
    assert_eq!(validate_box_sizes(&[4, 2]), Ok(()));
}

#[test]
fn samples_need_positive_counts() {
    let good = [Sample { box_size: 2, count: 9 }, Sample { box_size: 4, count: 3 }];
    assert_eq!(validate_samples(&good), Ok(()));
    let empty = [Sample { box_size: 2, count: 9 }, Sample { box_size: 4, count: 0 }];
    assert_eq!(validate_samples(&empty), Err(EstimateError::ZeroOccupancy));
}

#[test]
fn samples_are_judged_by_their_box_sizes_first() {
    let repeated = [Sample { box_size: 2, count: 0 }, Sample { box_size: 2, count: 3 }];
    assert_eq!(validate_samples(&repeated), Err(EstimateError::RepeatedBoxSize));
    let zero = [Sample { box_size: 0, count: 0 }, Sample { box_size: 2, count: 3 }];
    assert_eq!(validate_samples(&zero), Err(EstimateError::ZeroBoxSize));
    assert_eq!(
        validate_samples(&[Sample { box_size: 2, count: 0 }]),
        Err(EstimateError::TooFewBoxSizes)
    );
}

#[test]
fn collect_samples_keeps_the_order_of_the_box_sizes() {
    let img = centered_square();
    let samples = collect_samples(&img, Color::White, &[128, 2, 16]).unwrap();
    assert_eq!(
        samples,
        vec![
            Sample { box_size: 128, count: 4 },
            Sample { box_size: 2, count: 4096 },
            Sample { box_size: 16, count: 64 },
        ]
    );
}

#[test]
fn collect_samples_rejects_bad_box_sizes() {
    let img = centered_square();
    assert_eq!(collect_samples(&img, Color::White, &[2]), Err(EstimateError::TooFewBoxSizes));
    assert_eq!(collect_samples(&img, Color::White, &[2, 0]), Err(EstimateError::ZeroBoxSize));
    assert_eq!(
        collect_samples(&img, Color::White, &[2, 4, 4]),
        Err(EstimateError::RepeatedBoxSize)
    );
}

#[test]
fn centered_square_white_counts() {
    let img = centered_square();
    let samples = collect_samples(&img, Color::White, &BOX_SIZES).unwrap();
    let counts: Vec<u64> = samples.iter().map(|s| s.count).collect();
    assert_eq!(counts, vec![4096, 1024, 256, 64, 16, 4, 4]);
    // In base two the logarithms are whole numbers, and the fit is exact.
    let line = fit(&[1, 2, 3, 4, 5, 6, 7], &[12, 10, 8, 6, 4, 2, 2]).unwrap();
    assert_eq!((line.slope_num, line.denom), (-350, 196));
    let estimate = dimension(&samples);
    assert!((estimate - 350.0 / 196.0).abs() < 1e-6);
    assert!((estimate - 2.0).abs() < 0.25);
}

#[test]
fn centered_square_black_dimension() {
    let img = centered_square();
    let samples = collect_samples(&img, Color::Black, &BOX_SIZES).unwrap();
    let counts: Vec<u64> = samples.iter().map(|s| s.count).collect();
    assert_eq!(counts, vec![12288, 3072, 768, 192, 48, 12, 4]);
    let estimate = dimension(&samples);
    assert!((estimate - 2.0).abs() < 0.15);
}

#[test]
fn filled_raster_has_dimension_two() {
    let img = Raster::from_pixels(256, 256, vec![255; 256 * 256]).unwrap();
    let samples = collect_samples(&img, Color::White, &BOX_SIZES).unwrap();
    let estimate = dimension(&samples);
    assert!((estimate - 2.0).abs() < 1e-6);
}

#[test]
fn all_black_image_has_no_white_dimension() {
    let img = Raster::from_pixels(64, 64, vec![0; 64 * 64]).unwrap();
    for box_size in BOX_SIZES {
        assert_eq!(count_occupied_cells(&img, box_size, Color::White), 0);
    }
    assert_eq!(collect_samples(&img, Color::White, &BOX_SIZES), Err(EstimateError::ZeroOccupancy));
    let black = collect_samples(&img, Color::Black, &BOX_SIZES).unwrap();
    let counts: Vec<u64> = black.iter().map(|s| s.count).collect();
    assert_eq!(counts, vec![1024, 256, 64, 16, 4, 1, 1]);
}

#[test]
fn binarized_gradient_is_measured() {
    let data: Vec<u8> = (0..16 * 16).map(|i| (i % 16 * 16) as u8).collect();
    let gray = Raster::from_pixels(16, 16, data).unwrap();
    let img = binarize(&gray, 128);
    let white = collect_samples(&img, Color::White, &[2, 4, 8]).unwrap();
    let black = collect_samples(&img, Color::Black, &[2, 4, 8]).unwrap();
    assert_eq!(white.iter().map(|s| s.count).collect::<Vec<u64>>(), vec![32, 8, 2]);
    assert_eq!(black.iter().map(|s| s.count).collect::<Vec<u64>>(), vec![32, 8, 2]);
}
