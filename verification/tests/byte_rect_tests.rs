use fractal_server::byte_rect::{ByteRect, LinearCoeffs, SquareCoords, Transform};
use fractal_server::ratio::Ratio;

fn coeffs(shift: i16, num: i64, den: i64) -> LinearCoeffs {
    LinearCoeffs { shift, factor: Ratio::new(num, den).unwrap() }
}

#[test]
fn rotates_byte_rect() {
    let byte_rect: Vec<Vec<u8>> = vec![vec![1, 2], vec![3, 4], vec![5, 6]];
    let transformed = byte_rect.transform(Transform::HeadToRightInv);
    assert_eq!(transformed, vec![vec![1, 3, 5], vec![2, 4, 6]]);
}

#[test]
fn scales_rect_down_twice() {
    let byte_rect: Vec<Vec<u8>> = vec![vec![1, 2], vec![3, 4], vec![5, 6], vec![7, 8]];
    let scaled = byte_rect.scale_down(2).unwrap();
    assert_eq!(scaled, vec![vec![2], vec![6]]);
}

#[test]
fn linear_multiplies_and_shifts_all_values() {
    let byte_rect: Vec<Vec<u8>> = vec![vec![1, 2], vec![3, 4], vec![5, 6], vec![7, 8]];
    let lineared = byte_rect.linear(coeffs(10, -2, 1));
    assert_eq!(lineared, vec![vec![8, 6], vec![4, 2], vec![0, 0], vec![0, 0]]);
}

#[test]
fn least_squares_finds_the_perfect_shift_only_match() {
    let byte_rect: Vec<Vec<u8>> = vec![vec![10, 20], vec![30, 40]];
    let desired: Vec<Vec<u8>> = vec![vec![120, 130], vec![140, 150]];
    let LinearCoeffs { shift, factor } = byte_rect.best_coeffs_to_match(&desired).unwrap();
    assert_eq!(shift, 110);
    let factor = factor.num() as f32 / factor.den() as f32;
    assert!((factor - 1.0).abs() < 0.001, "factor was {}", factor);
}

#[test]
fn linear_with_best_coeffs_yields_perfecly_the_same() {
    let byte_rect: Vec<Vec<u8>> = vec![vec![6, 5, 4], vec![3, 2, 1]];
    let desired: Vec<Vec<u8>> = vec![vec![10, 20, 30], vec![40, 50, 60]];
    let coeffs = byte_rect.best_coeffs_to_match(&desired).unwrap();
    let adjusted = byte_rect.linear(coeffs);
    assert_eq!(adjusted, desired);
}

#[test]
fn euclid_dist_works_correctly() {
    let r1: Vec<Vec<u8>> = vec![vec![10, 20, 30], vec![40, 50, 60]];
    let r2: Vec<Vec<u8>> = vec![vec![12, 20, 30], vec![40, 50, 58]];
    assert_eq!(r1.dist(&r2), Ok(8));
}

#[test]
fn linear_with_best_coeffs_yields_closer_than_intuitive() {
    let byte_rect: Vec<Vec<u8>> = vec![vec![6, 5, 4], vec![3, 3, 1]];
    let desired: Vec<Vec<u8>> = vec![vec![10, 20, 30], vec![40, 50, 60]];
    let coeffs = byte_rect.best_coeffs_to_match(&desired).unwrap();
    let adjusted = byte_rect.linear(coeffs);
    let intuitive_adjusted: Vec<Vec<u8>> = vec![vec![10, 20, 30], vec![40, 40, 60]];
    assert!(desired.dist(&intuitive_adjusted).unwrap() > desired.dist(&adjusted).unwrap());
}

#[test]
fn pad_to_divisible_by_3_leaves_divisible_boundaries_untouched() {
    let byte_rect: Vec<Vec<u8>> = vec![
        vec![1, 2, 3],
        vec![4, 5, 6],
        vec![7, 8, 9],
        vec![1, 2, 3],
        vec![4, 5, 6],
        vec![7, 8, 9],
    ];
    let padded = byte_rect.pad_to_divisible_by(3).unwrap();
    assert_eq!(padded, byte_rect);
}

#[test]
fn pad_to_divisible_by_3_padds_non_divisible_boundaries() {
    let byte_rect: Vec<Vec<u8>> = vec![vec![1, 2], vec![3, 4], vec![5, 6], vec![7, 8]];
    let padded = byte_rect.pad_to_divisible_by(3).unwrap();
    let expected_padded: Vec<Vec<u8>> = vec![
        vec![1, 2, 2],
        vec![3, 4, 4],
        vec![5, 6, 6],
        vec![7, 8, 8],
        vec![7, 8, 8],
        vec![7, 8, 8],
    ];
    assert_eq!(padded, expected_padded);
}

#[test]
fn to_square_chunks_works() {
    let byte_rect: Vec<Vec<u8>> = vec![vec![11, 12, 13, 14], vec![21, 22, 23, 24]];
    let chunks = byte_rect.to_square_chunks(2).unwrap();
    let expected_chunks: Vec<(SquareCoords, Vec<Vec<u8>>)> = vec![
        (SquareCoords { x: 0, y: 0, side: 2 }, vec![vec![11, 12], vec![21, 22]]),
        (SquareCoords { x: 2, y: 0, side: 2 }, vec![vec![13, 14], vec![23, 24]]),
    ];
    assert_eq!(chunks, expected_chunks);
}
