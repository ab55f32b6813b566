use fractal_server::byte_rect::{ByteRect, LinearCoeffs, Transform};
use fractal_server::error::FractalError;
use fractal_server::fractal::{
    compress, decompress, find_closest_square, CompSettings, Compressed, DecompSettings,
};
use fractal_server::ratio::Ratio;

#[test]
fn clone_on_2d_vec_is_deep() {
    let v: Vec<Vec<i32>> = vec![vec![1, 2, 3]];
    let mut v2: Vec<Vec<i32>> = v.clone();
    v2[0][1] = -2;
    assert_eq!(v, vec![vec![1, 2, 3]]);
    assert_eq!(v2, vec![vec![1, -2, 3]]);
}

#[test]
fn find_closest_rect_chooses_the_perfect_matching_out_of_three() {
    let desired: Vec<Vec<u8>> = vec![vec![1, 2], vec![3, 4]];
    let options: Vec<Vec<Vec<u8>>> = vec![
        vec![vec![3, 2], vec![2, 0]],
        vec![vec![6, 2], vec![4, 0]],
        vec![vec![5, 5], vec![5, 5]],
    ];
    // The third entry is flat: it has no fit, and the search says so.
    assert_eq!(find_closest_square(&options, &desired), Err(FractalError::DegenerateFit));
    let (best_match_index, best_trans, best_coeffs) =
        find_closest_square(&options[0..2], &desired).unwrap();
    assert_eq!(best_match_index, 1);
    assert_eq!(best_trans, Transform::HeadToRightInv);
    assert_eq!(best_coeffs, LinearCoeffs { shift: 4, factor: Ratio::new(-1, 2).unwrap() })
}

fn striped_picture() -> Vec<Vec<u8>> {
    vec![
        vec![11, 12, 13, 14, 15],
        vec![21, 22, 23, 24, 25],
        vec![31, 32, 33, 34, 35],
        vec![41, 42, 43, 44, 45],
        vec![51, 52, 53, 54, 55],
        vec![61, 62, 63, 64, 65],
        vec![71, 72, 73, 74, 75],
    ]
}

#[test]
fn closest_chunks_chooses_as_many_matches_as_there_are_small_squares() {
    let picture = striped_picture();
    let Compressed { mapping, .. } = compress(
        &picture,
        CompSettings { big_square_size: 4, small_square_size: 2, grouping_factor: 1 },
    )
    .unwrap();
    let small_square_count = 4 * 4;
    assert_eq!(mapping.len(), small_square_count);
}

#[test]
fn restores_image_to_original_size() {
    let picture = striped_picture();
    let compressed = compress(
        &picture,
        CompSettings { big_square_size: 4, small_square_size: 2, grouping_factor: 1 },
    )
    .unwrap();
    let restored = decompress(&compressed, DecompSettings { iterations: 10 }).unwrap();
    assert_eq!(restored.len(), 7);
    assert_eq!(restored[0].len(), 5);
}

fn print_image(im: Vec<Vec<u8>>) -> String {
    im.iter().map(|ln| format!("{:?}", ln)).collect::<Vec<_>>().join("\n")
}

#[test]
fn restores_gradient_image_exactly_to_original_after_10_iterations() {
    let picture: Vec<Vec<u8>> = vec![
        vec![11, 12, 13, 14],
        vec![21, 22, 23, 24],
        vec![31, 32, 33, 34],
        vec![41, 42, 43, 44],
    ];
    let compressed = compress(
        &picture,
        CompSettings { big_square_size: 4, small_square_size: 2, grouping_factor: 1 },
    )
    .unwrap();
    let restored = decompress(&compressed, DecompSettings { iterations: 10 }).unwrap();
    let dist = picture.dist(&restored).unwrap();
    assert!(dist == 0, "dist was not 0: \n{}", print_image(restored));
}
