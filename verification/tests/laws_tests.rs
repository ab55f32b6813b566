use fractal_server::byte_rect::{ByteRect, LinearCoeffs, SquareCoords, Transform};
use fractal_server::error::FractalError;
use fractal_server::fractal::{
    apply_square_mapping, apply_square_mapping_rec, compress, decompress, encode_and_decode_ch,
    find_closest_square, get_closest_chunk_mapping, CompSettings, Compressed, DecompSettings,
    SquareMapping,
};
use fractal_server::ratio::Ratio;

const ALL_TRANSFORMS: [Transform; 8] = [
    Transform::HeadToTop,
    Transform::HeadToRight,
    Transform::HeadToBottom,
    Transform::HeadToLeft,
    Transform::HeadToTopInv,
    Transform::HeadToRightInv,
    Transform::HeadToBottomInv,
    Transform::HeadToLeftInv,
];

fn sample_matrix() -> Vec<Vec<u8>> {
    vec![vec![1, 2, 3, 4, 5], vec![6, 7, 8, 9, 10], vec![11, 12, 13, 14, 15]]
}

fn gradient() -> Vec<Vec<u8>> {
    vec![vec![11, 12, 13, 14], vec![21, 22, 23, 24], vec![31, 32, 33, 34], vec![41, 42, 43, 44]]
}

fn settings(big: usize, small: usize, grouping: usize) -> CompSettings {
    CompSettings { big_square_size: big, small_square_size: small, grouping_factor: grouping }
}

fn ratio(num: i64, den: i64) -> Ratio {
    Ratio::new(num, den).unwrap()
}

#[test]
fn padding_twice_is_padding_once() {
    for d in 1..9usize {
        let once = sample_matrix().pad_to_divisible_by(d).unwrap();
        let twice = once.pad_to_divisible_by(d).unwrap();
        assert_eq!(once, twice);
        assert_eq!(once.len() % d, 0);
        assert_eq!(once[0].len() % d, 0);
    }
}

#[test]
fn padding_keeps_the_matrix_in_its_corner() {
    let m = sample_matrix();
    let padded = m.pad_to_divisible_by(4).unwrap();
    assert_eq!(padded.len(), 4);
    assert_eq!(padded[0].len(), 8);
    assert_eq!(padded.get_rect(0, 0, 5, 3).unwrap(), m);
    assert_eq!(padded[3], vec![11, 12, 13, 14, 15, 15, 15, 15]);
}

#[test]
fn padding_to_a_multiple_of_zero_is_refused() {
    assert_eq!(sample_matrix().pad_to_divisible_by(0), Err(FractalError::NotDivisible));
}

#[test]
fn a_matrix_is_at_distance_zero_from_itself() {
    let m = sample_matrix();
    assert_eq!(m.dist(&m), Ok(0));
}

#[test]
fn distance_is_symmetric() {
    let a = sample_matrix();
    let b = a.transform(Transform::HeadToBottom);
    assert_eq!(a.dist(&b), b.dist(&a));
    assert_eq!(a.dist(&b), Ok(2 * (14 * 14 + 12 * 12 + 10 * 10 + 8 * 8 + 6 * 6 + 4 * 4 + 2 * 2)));
}

#[test]
fn distance_of_different_shapes_is_refused() {
    let a = sample_matrix();
    let b = a.transform(Transform::HeadToRight);
    assert_eq!(a.dist(&b), Err(FractalError::DimensionMismatch));
    assert_eq!(b.dist(&a), Err(FractalError::DimensionMismatch));
}

#[test]
fn distance_reaches_its_largest_value_per_sample() {
    let a: Vec<Vec<u8>> = vec![vec![0, 255], vec![255, 0]];
    let b: Vec<Vec<u8>> = vec![vec![255, 0], vec![0, 255]];
    assert_eq!(a.dist(&b), Ok(4 * 65025));
}

#[test]
fn each_transform_is_undone_by_its_inverse() {
    let m = sample_matrix();
    for t in ALL_TRANSFORMS {
        assert_eq!(m.transform(t).transform(t.inverted()), m);
    }
}

#[test]
fn only_the_inverse_undoes_a_transform() {
    let m: Vec<Vec<u8>> = vec![vec![0, 1], vec![2, 3]];
    for t in ALL_TRANSFORMS {
        let undoing: Vec<Transform> =
            ALL_TRANSFORMS.iter().copied().filter(|&u| m.transform(t).transform(u) == m).collect();
        assert_eq!(undoing, vec![t.inverted()]);
    }
}

#[test]
fn transforms_are_counted_in_the_order_of_the_search() {
    for (k, t) in ALL_TRANSFORMS.iter().enumerate() {
        assert_eq!(Transform::from_index(k), *t);
    }
}

#[test]
fn each_transform_moves_the_samples_as_its_flips_say() {
    let m: Vec<Vec<u8>> = vec![vec![1, 2, 3], vec![4, 5, 6]];
    assert_eq!(m.transform(Transform::HeadToTop), m);
    assert_eq!(m.transform(Transform::HeadToRight), vec![vec![3, 6], vec![2, 5], vec![1, 4]]);
    assert_eq!(m.transform(Transform::HeadToBottom), vec![vec![6, 5, 4], vec![3, 2, 1]]);
    assert_eq!(m.transform(Transform::HeadToLeft), vec![vec![4, 1], vec![5, 2], vec![6, 3]]);
    assert_eq!(m.transform(Transform::HeadToTopInv), vec![vec![3, 2, 1], vec![6, 5, 4]]);
    assert_eq!(m.transform(Transform::HeadToRightInv), vec![vec![1, 4], vec![2, 5], vec![3, 6]]);
    assert_eq!(m.transform(Transform::HeadToBottomInv), vec![vec![4, 5, 6], vec![1, 2, 3]]);
    assert_eq!(m.transform(Transform::HeadToLeftInv), vec![vec![6, 3], vec![5, 2], vec![4, 1]]);
    assert_eq!(Transform::HeadToLeftInv.flips(), (true, true, true));
    assert_eq!(Transform::HeadToRightInv.flips(), (false, false, true));
}

#[test]
fn exact_affine_fit_is_found_and_reproduces_the_target() {
    let a: Vec<Vec<u8>> = vec![vec![10, 20], vec![30, 40]];
    let b: Vec<Vec<u8>> = vec![vec![120, 130], vec![140, 150]];
    let c = a.best_coeffs_to_match(&b).unwrap();
    assert_eq!(c, LinearCoeffs { shift: 110, factor: ratio(1, 1) });
    assert_eq!(a.linear(c), b);
}

#[test]
fn fit_keeps_the_factor_as_a_fraction_in_lowest_terms() {
    let a: Vec<Vec<u8>> = vec![vec![6, 5, 4], vec![3, 3, 1]];
    let b: Vec<Vec<u8>> = vec![vec![10, 20, 30], vec![40, 50, 60]];
    let c = a.best_coeffs_to_match(&b).unwrap();
    assert_eq!(c.shift, 73);
    assert_eq!((c.factor.num(), c.factor.den()), (-240, 23));
    assert_eq!(a.linear(c), vec![vec![10, 21, 31], vec![42, 42, 63]]);
}

#[test]
fn fit_of_a_flat_matrix_is_refused() {
    let flat: Vec<Vec<u8>> = vec![vec![5, 5], vec![5, 5]];
    let b: Vec<Vec<u8>> = vec![vec![1, 2], vec![3, 4]];
    assert_eq!(flat.best_coeffs_to_match(&b), Err(FractalError::DegenerateFit));
    assert_eq!(
        b.best_coeffs_to_match(&flat),
        Ok(LinearCoeffs { shift: 5, factor: ratio(0, 1) })
    );
}

#[test]
fn fit_of_different_shapes_is_refused() {
    let a: Vec<Vec<u8>> = vec![vec![1, 2, 3]];
    let b: Vec<Vec<u8>> = vec![vec![1], vec![2], vec![3]];
    assert_eq!(a.best_coeffs_to_match(&b), Err(FractalError::DimensionMismatch));
}

#[test]
fn fit_brings_the_shift_into_sixteen_bits() {
    let a: Vec<Vec<u8>> = vec![vec![254, 255]];
    let b: Vec<Vec<u8>> = vec![vec![0, 255]];
    let c = a.best_coeffs_to_match(&b).unwrap();
    assert_eq!(c, LinearCoeffs { shift: -32768, factor: ratio(255, 1) });
    let back: Vec<Vec<u8>> = vec![vec![0, 255]];
    let d = b.best_coeffs_to_match(&a).unwrap();
    assert_eq!(d, LinearCoeffs { shift: 254, factor: ratio(1, 255) });
    assert_eq!(back.linear(d), vec![vec![254, 255]]);
}

#[test]
fn fit_rounds_the_shift_to_the_nearest_with_ties_away_from_zero() {
    // Shift 1/2 and factor 0: the samples of `a` do not tell the targets apart.
    let a: Vec<Vec<u8>> = vec![vec![1, 3, 1, 3]];
    let b: Vec<Vec<u8>> = vec![vec![0, 0, 1, 1]];
    assert_eq!(a.best_coeffs_to_match(&b), Ok(LinearCoeffs { shift: 1, factor: ratio(0, 1) }));
    // Shift -3/2 and factor 1.
    let c: Vec<Vec<u8>> = vec![vec![2, 4, 2, 4]];
    let d: Vec<Vec<u8>> = vec![vec![0, 2, 1, 3]];
    assert_eq!(c.best_coeffs_to_match(&d), Ok(LinearCoeffs { shift: -2, factor: ratio(1, 1) }));
}

#[test]
fn linear_rounds_to_the_nearest_and_saturates() {
    let m: Vec<Vec<u8>> = vec![vec![0, 1, 2, 3, 200, 255]];
    // A tie goes toward zero.
    assert_eq!(
        m.linear(LinearCoeffs { shift: 0, factor: ratio(1, 2) }),
        vec![vec![0, 0, 1, 1, 100, 127]]
    );
    assert_eq!(
        m.linear(LinearCoeffs { shift: 100, factor: ratio(3, 2) }),
        vec![vec![100, 101, 103, 104, 255, 255]]
    );
    assert_eq!(
        m.linear(LinearCoeffs { shift: 2, factor: ratio(-2, 3) }),
        vec![vec![2, 1, 1, 0, 0, 0]]
    );
    assert_eq!(
        m.linear(LinearCoeffs { shift: 0, factor: ratio(7, 10) }),
        vec![vec![0, 1, 1, 2, 140, 178]]
    );
    assert_eq!(LinearCoeffs { shift: -1, factor: ratio(1, 3) }.apply(4), 0);
    assert_eq!(LinearCoeffs { shift: -1, factor: ratio(1, 3) }.apply(5), 1);
    assert_eq!(LinearCoeffs { shift: 0, factor: ratio(1, 4) }.apply(2), 0);
    assert_eq!(LinearCoeffs { shift: 0, factor: ratio(1, 4) }.apply(3), 1);
    assert_eq!(LinearCoeffs { shift: 32767, factor: ratio(i64::MAX, 1) }.apply(255), 255);
    assert_eq!(LinearCoeffs { shift: -32768, factor: ratio(i64::MIN + 1, 1) }.apply(255), 0);
    assert_eq!(LinearCoeffs { shift: 0, factor: ratio(1, i64::MAX) }.apply(255), 0);
}

#[test]
fn scaling_down_takes_the_mean_of_each_block() {
    let m: Vec<Vec<u8>> = vec![
        vec![1, 2, 10, 20],
        vec![3, 5, 30, 41],
        vec![255, 255, 0, 0],
        vec![255, 255, 0, 1],
    ];
    assert_eq!(m.scale_down(2), Ok(vec![vec![2, 25], vec![255, 0]]));
    assert_eq!(m.scale_down(1), Ok(m.clone()));
    assert_eq!(m.scale_down(4), Ok(vec![vec![70]]));
}

#[test]
fn scaling_down_by_what_does_not_divide_is_refused() {
    let m = sample_matrix();
    assert_eq!(m.scale_down(0), Err(FractalError::NotDivisible));
    assert_eq!(m.scale_down(2), Err(FractalError::NotDivisible));
    assert_eq!(m.scale_down(3), Err(FractalError::NotDivisible));
    assert_eq!(m.scale_down(5), Err(FractalError::NotDivisible));
    assert_eq!(m.scale_down(15), Err(FractalError::NotDivisible));
}

#[test]
fn a_rectangle_is_copied_or_refused() {
    let m = sample_matrix();
    assert_eq!(m.get_rect(1, 1, 3, 2), Ok(vec![vec![7, 8, 9], vec![12, 13, 14]]));
    assert_eq!(m.get_rect(0, 0, 5, 3), Ok(m.clone()));
    assert_eq!(m.get_rect(4, 2, 1, 1), Ok(vec![vec![15]]));
    assert_eq!(m.get_rect(3, 0, 3, 1), Err(FractalError::OutOfBounds));
    assert_eq!(m.get_rect(0, 2, 1, 2), Err(FractalError::OutOfBounds));
    assert_eq!(m.get_rect(5, 0, 1, 1), Err(FractalError::OutOfBounds));
    assert_eq!(m.get_rect(0, 0, 0, 1), Err(FractalError::OutOfBounds));
    assert_eq!(m.get_rect(0, 0, 1, 0), Err(FractalError::OutOfBounds));
    assert_eq!(m.get_rect(usize::MAX, 0, 2, 1), Err(FractalError::OutOfBounds));
    assert_eq!(m.get_rect(1, 0, usize::MAX, 1), Err(FractalError::OutOfBounds));
    assert_eq!(m.get_square(SquareCoords { x: 2, y: 1, side: 2 }), Ok(vec![vec![8, 9], vec![13, 14]]));
    assert_eq!(m.get_square(SquareCoords { x: 2, y: 2, side: 2 }), Err(FractalError::OutOfBounds));
}

#[test]
fn width_and_height_are_those_of_the_rows() {
    let m = sample_matrix();
    assert_eq!(m.width(), 5);
    assert_eq!(m.height(), 3);
}

#[test]
fn roughness_compares_the_matrix_with_itself_moved_by_one() {
    let m: Vec<Vec<u8>> = vec![vec![1, 2, 3], vec![4, 5, 6], vec![7, 8, 10]];
    // (1-5)^2 + (2-6)^2 + (4-8)^2 + (5-10)^2
    assert_eq!(m.roughness(), 16 + 16 + 16 + 25);
    let flat: Vec<Vec<u8>> = vec![vec![9, 9], vec![9, 9]];
    assert_eq!(flat.roughness(), 0);
}

#[test]
fn roughness_of_a_single_row_or_column_is_one() {
    let row: Vec<Vec<u8>> = vec![vec![1, 200, 3]];
    let column: Vec<Vec<u8>> = vec![vec![1], vec![200], vec![3]];
    assert_eq!(row.roughness(), 1);
    assert_eq!(column.roughness(), 1);
}

#[test]
fn chunks_come_row_by_row() {
    let m: Vec<Vec<u8>> = vec![vec![1, 2, 3, 4], vec![5, 6, 7, 8], vec![9, 10, 11, 12], vec![13, 14, 15, 16]];
    let chunks = m.to_square_chunks(2).unwrap();
    let coords: Vec<SquareCoords> = chunks.iter().map(|c| c.0).collect();
    assert_eq!(
        coords,
        vec![
            SquareCoords { x: 0, y: 0, side: 2 },
            SquareCoords { x: 2, y: 0, side: 2 },
            SquareCoords { x: 0, y: 2, side: 2 },
            SquareCoords { x: 2, y: 2, side: 2 },
        ]
    );
    assert_eq!(chunks[2].1, vec![vec![9, 10], vec![13, 14]]);
    assert_eq!(m.to_square_chunks(4).unwrap(), vec![(SquareCoords { x: 0, y: 0, side: 4 }, m.clone())]);
}

#[test]
fn chunks_of_a_size_that_does_not_divide_are_refused() {
    let m = sample_matrix();
    assert_eq!(m.to_square_chunks(0), Err(FractalError::NotDivisible));
    assert_eq!(m.to_square_chunks(2), Err(FractalError::NotDivisible));
    assert_eq!(m.to_square_chunks(5), Err(FractalError::NotDivisible));
}

#[test]
fn the_search_is_deterministic() {
    let desired: Vec<Vec<u8>> = vec![vec![1, 2], vec![3, 4]];
    let options: Vec<Vec<Vec<u8>>> = vec![
        vec![vec![3, 2], vec![2, 0]],
        vec![vec![6, 2], vec![4, 0]],
        vec![vec![5, 5], vec![5, 5]],
    ];
    let first = find_closest_square(&options[0..2], &desired);
    let second = find_closest_square(&options[0..2], &desired);
    assert!(first.is_ok());
    assert_eq!(first, second);
    assert_eq!(find_closest_square(&options, &desired), find_closest_square(&options, &desired));
}

#[test]
fn the_search_takes_the_first_of_equally_close_candidates() {
    let desired: Vec<Vec<u8>> = vec![vec![10, 20], vec![30, 40]];
    // Entry 1 is entry 0 turned upside down: both fit exactly, entry 0 comes first.
    let options: Vec<Vec<Vec<u8>>> =
        vec![vec![vec![4, 3], vec![2, 1]], vec![vec![1, 2], vec![3, 4]]];
    assert_eq!(
        find_closest_square(&options, &desired),
        Ok((0, Transform::HeadToTop, LinearCoeffs { shift: 50, factor: ratio(-10, 1) }))
    );
    let swapped: Vec<Vec<Vec<u8>>> =
        vec![vec![vec![1, 2], vec![3, 4]], vec![vec![4, 3], vec![2, 1]]];
    assert_eq!(
        find_closest_square(&swapped, &desired),
        Ok((0, Transform::HeadToTop, LinearCoeffs { shift: 0, factor: ratio(10, 1) }))
    );
}

#[test]
fn the_search_refuses_an_empty_pool() {
    let desired: Vec<Vec<u8>> = vec![vec![1, 2], vec![3, 4]];
    let options: Vec<Vec<Vec<u8>>> = vec![];
    assert_eq!(find_closest_square(&options, &desired), Err(FractalError::EmptyCandidatePool));
}

#[test]
fn the_search_refuses_a_candidate_of_another_shape() {
    let desired: Vec<Vec<u8>> = vec![vec![1, 2], vec![3, 4]];
    let options: Vec<Vec<Vec<u8>>> =
        vec![vec![vec![6, 2], vec![4, 0]], vec![vec![1, 2, 3], vec![4, 5, 6], vec![7, 8, 9]]];
    assert_eq!(find_closest_square(&options, &desired), Err(FractalError::DimensionMismatch));
    let wide: Vec<Vec<u8>> = vec![vec![1, 2, 3], vec![4, 5, 6]];
    let same: Vec<Vec<Vec<u8>>> = vec![vec![vec![1, 2, 3], vec![4, 5, 7]]];
    assert_eq!(find_closest_square(&same, &wide), Err(FractalError::DimensionMismatch));
}

#[test]
fn the_search_does_not_pass_over_a_flat_candidate() {
    let desired: Vec<Vec<u8>> = vec![vec![1, 2], vec![3, 4]];
    let fitting: Vec<Vec<u8>> = vec![vec![6, 2], vec![4, 0]];
    let flat: Vec<Vec<u8>> = vec![vec![5, 5], vec![5, 5]];
    let alone: Vec<Vec<Vec<u8>>> = vec![flat.clone(), vec![vec![0, 0], vec![0, 0]]];
    assert_eq!(find_closest_square(&alone, &desired), Err(FractalError::DegenerateFit));
    let last: Vec<Vec<Vec<u8>>> = vec![fitting.clone(), fitting.clone(), flat.clone()];
    assert_eq!(find_closest_square(&last, &desired), Err(FractalError::DegenerateFit));
    let first: Vec<Vec<Vec<u8>>> = vec![flat.clone(), fitting.clone()];
    assert_eq!(find_closest_square(&first, &desired), Err(FractalError::DegenerateFit));
    let none: Vec<Vec<Vec<u8>>> = vec![fitting.clone(), fitting.clone()];
    assert!(find_closest_square(&none, &desired).is_ok());
}

#[test]
fn the_search_reports_the_first_candidate_without_a_fit() {
    let desired: Vec<Vec<u8>> = vec![vec![1, 2], vec![3, 4]];
    let fitting: Vec<Vec<u8>> = vec![vec![6, 2], vec![4, 0]];
    let flat: Vec<Vec<u8>> = vec![vec![5, 5], vec![5, 5]];
    let large: Vec<Vec<u8>> = vec![vec![1, 2, 3], vec![4, 5, 6], vec![7, 8, 9]];
    let flat_first: Vec<Vec<Vec<u8>>> = vec![fitting.clone(), flat.clone(), large.clone()];
    assert_eq!(find_closest_square(&flat_first, &desired), Err(FractalError::DegenerateFit));
    let large_first: Vec<Vec<Vec<u8>>> = vec![fitting.clone(), large.clone(), flat.clone()];
    assert_eq!(find_closest_square(&large_first, &desired), Err(FractalError::DimensionMismatch));
}

#[test]
fn compression_holds_one_mapping_for_each_target_block() {
    let picture: Vec<Vec<u8>> = (0..12u8).map(|y| (0..13u8).map(|x| x * 7 + y * 13).collect()).collect();
    let c = compress(&picture, settings(4, 2, 2)).unwrap();
    assert_eq!((c.orig_width, c.orig_height), (13, 12));
    assert_eq!((c.padded_width, c.padded_height), (16, 12));
    assert_eq!(c.mapping.len(), (c.padded_width / 2) * (c.padded_height / 2));
    for (j, m) in c.mapping.iter().enumerate() {
        assert_eq!(m.small, SquareCoords { x: (j % 8) * 2, y: (j / 8) * 2, side: 2 });
        assert_eq!(m.big.side, 4);
        assert_eq!(m.big.x % 4, 0);
        assert_eq!(m.big.y % 4, 0);
    }
}

#[test]
fn compression_of_the_gradient_maps_each_block_exactly() {
    let c = compress(&gradient(), settings(4, 2, 1)).unwrap();
    let whole = SquareCoords { x: 0, y: 0, side: 4 };
    let expected: Vec<SquareMapping> = [(0, 0, 3), (2, 0, 5), (0, 2, 23), (2, 2, 25)]
        .iter()
        .map(|&(x, y, shift)| SquareMapping {
            small: SquareCoords { x, y, side: 2 },
            big: whole,
            trans: Transform::HeadToTop,
            coeffs: LinearCoeffs { shift, factor: ratio(1, 2) },
        })
        .collect();
    assert_eq!(
        c,
        Compressed { orig_width: 4, orig_height: 4, padded_width: 4, padded_height: 4, mapping: expected }
    );
}

#[test]
fn compression_searches_the_smoothest_domain_blocks() {
    // Four domain blocks, each of four cells of one sample: at the size of
    // a target block their roughness is 40000, 10000, 900 and 100.
    let cells: [[[u8; 2]; 2]; 4] =
        [[[0, 50], [100, 200]], [[10, 20], [30, 110]], [[0, 10], [20, 30]], [[5, 40], [80, 15]]];
    let mut picture: Vec<Vec<u8>> = vec![vec![0; 8]; 8];
    for (k, block) in cells.iter().enumerate() {
        for y in 0..4 {
            for x in 0..4 {
                picture[(k / 2) * 4 + y][(k % 2) * 4 + x] = block[y / 2][x / 2];
            }
        }
    }
    let table = get_closest_chunk_mapping(&picture, 4, 2, 2).unwrap();
    assert_eq!(table.len(), 16);
    for m in &table {
        assert_eq!(m.big.y, 4);
    }
    let all = get_closest_chunk_mapping(&picture, 4, 2, 4).unwrap();
    for m in &all {
        assert_eq!(m.big, SquareCoords { x: 4, y: 4, side: 4 });
    }
}

#[test]
fn compression_refuses_block_sizes_that_do_not_divide() {
    let picture = gradient();
    assert_eq!(compress(&picture, settings(0, 2, 1)), Err(FractalError::NotDivisible));
    assert_eq!(compress(&picture, settings(4, 0, 1)), Err(FractalError::NotDivisible));
    assert_eq!(compress(&picture, settings(4, 3, 1)), Err(FractalError::NotDivisible));
    assert_eq!(compress(&picture, settings(2, 4, 1)), Err(FractalError::NotDivisible));
    assert_eq!(get_closest_chunk_mapping(&picture, 3, 1, 1), Err(FractalError::NotDivisible));
}

#[test]
fn compression_refuses_a_grouping_factor_that_leaves_no_pool() {
    let picture = gradient();
    assert_eq!(compress(&picture, settings(4, 2, 0)), Err(FractalError::EmptyCandidatePool));
    assert_eq!(compress(&picture, settings(4, 2, 2)), Err(FractalError::EmptyCandidatePool));
    assert_eq!(compress(&picture, settings(2, 1, 5)), Err(FractalError::EmptyCandidatePool));
    assert_eq!(compress(&picture, settings(2, 1, 4)), Err(FractalError::DegenerateFit));
    assert!(compress(&picture, settings(2, 2, 4)).is_ok());
}

#[test]
fn compression_of_a_flat_image_has_no_fit() {
    let picture: Vec<Vec<u8>> = vec![vec![7; 4]; 4];
    assert_eq!(compress(&picture, settings(4, 2, 1)), Err(FractalError::DegenerateFit));
    assert_eq!(compress(&picture, settings(0, 2, 0)), Err(FractalError::NotDivisible));
}

#[test]
fn compression_refuses_a_flat_block_in_the_pool() {
    let mut picture: Vec<Vec<u8>> = vec![vec![9; 8]; 4];
    for y in 0..4 {
        for x in 0..4 {
            picture[y][x + 4] = (x * 10 + y * 40) as u8;
        }
    }
    // The flat block is the smoother of the two: it is in every pool.
    assert_eq!(compress(&picture, settings(4, 2, 1)), Err(FractalError::DegenerateFit));
    assert_eq!(compress(&picture, settings(4, 2, 2)), Err(FractalError::DegenerateFit));
    // A padded corner that repeats one sample is flat too.
    let corner: Vec<Vec<u8>> = (0..9u8).map(|y| (0..13u8).map(|x| x * 7 + y * 13).collect()).collect();
    assert_eq!(compress(&corner, settings(4, 2, 2)), Err(FractalError::DegenerateFit));
}

#[test]
fn compression_leaves_a_flat_block_outside_the_pool_alone() {
    // Both blocks have roughness 0, the second is flat. With one block in
    // the pool it is the first, which comes first among equals.
    let cells: [[u8; 2]; 2] = [[10, 50], [90, 10]];
    let mut picture: Vec<Vec<u8>> = vec![vec![7; 8]; 4];
    for y in 0..4 {
        for x in 0..4 {
            picture[y][x] = cells[y / 2][x / 2];
        }
    }
    let c = compress(&picture, settings(4, 2, 2)).unwrap();
    assert_eq!(c.mapping.len(), 8);
    for m in &c.mapping {
        assert_eq!(m.big, SquareCoords { x: 0, y: 0, side: 4 });
    }
    assert_eq!(compress(&picture, settings(4, 2, 1)), Err(FractalError::DegenerateFit));
}

#[test]
fn decompression_without_rounds_gives_the_gray_canvas() {
    let mut c = compress(&gradient(), settings(4, 2, 1)).unwrap();
    c.orig_width = 3;
    c.orig_height = 2;
    let restored = decompress(&c, DecompSettings { iterations: 0 }).unwrap();
    assert_eq!(restored, vec![vec![128u8; 3]; 2]);
}

#[test]
fn decompression_comes_closer_round_by_round() {
    let picture = gradient();
    let c = compress(&picture, settings(4, 2, 1)).unwrap();
    let distances: Vec<u64> = (0..9)
        .map(|rounds| picture.dist(&decompress(&c, DecompSettings { iterations: rounds }).unwrap()).unwrap())
        .collect();
    assert_eq!(distances, vec![163624, 41208, 10000, 2304, 576, 144, 16, 0, 0]);
}

#[test]
fn a_round_reads_the_canvas_as_it_was_before_the_round() {
    let canvas: Vec<Vec<u8>> = vec![vec![10, 20], vec![30, 40]];
    let half = LinearCoeffs { shift: 1, factor: ratio(1, 1) };
    let table = vec![
        SquareMapping {
            small: SquareCoords { x: 0, y: 0, side: 1 },
            big: SquareCoords { x: 1, y: 1, side: 1 },
            trans: Transform::HeadToTop,
            coeffs: half,
        },
        SquareMapping {
            small: SquareCoords { x: 1, y: 1, side: 1 },
            big: SquareCoords { x: 0, y: 0, side: 1 },
            trans: Transform::HeadToTop,
            coeffs: half,
        },
    ];
    assert_eq!(apply_square_mapping(&canvas, &table), vec![vec![41, 20], vec![30, 11]]);
    assert_eq!(apply_square_mapping_rec(&canvas, &table, 0), canvas);
    assert_eq!(apply_square_mapping_rec(&canvas, &table, 2), vec![vec![12, 20], vec![30, 42]]);
}

#[test]
fn a_later_mapping_writes_over_an_earlier_one() {
    let canvas: Vec<Vec<u8>> = vec![vec![1, 2, 3, 4], vec![5, 6, 7, 8]];
    let table = vec![
        SquareMapping {
            small: SquareCoords { x: 0, y: 0, side: 2 },
            big: SquareCoords { x: 2, y: 0, side: 2 },
            trans: Transform::HeadToTopInv,
            coeffs: LinearCoeffs { shift: 0, factor: ratio(10, 1) },
        },
        SquareMapping {
            small: SquareCoords { x: 1, y: 1, side: 1 },
            big: SquareCoords { x: 0, y: 0, side: 2 },
            trans: Transform::HeadToTop,
            coeffs: LinearCoeffs { shift: 100, factor: ratio(1, 1) },
        },
    ];
    assert_eq!(apply_square_mapping(&canvas, &table), vec![vec![40, 30, 3, 4], vec![80, 103, 7, 8]]);
}

fn one_mapping(small: SquareCoords, big: SquareCoords) -> Compressed {
    Compressed {
        orig_width: 3,
        orig_height: 3,
        padded_width: 4,
        padded_height: 4,
        mapping: vec![SquareMapping {
            small,
            big,
            trans: Transform::HeadToTop,
            coeffs: LinearCoeffs { shift: 0, factor: ratio(1, 1) },
        }],
    }
}

#[test]
fn decompression_refuses_what_does_not_fit() {
    let rounds = DecompSettings { iterations: 1 };
    let inside = SquareCoords { x: 0, y: 0, side: 2 };
    let whole = SquareCoords { x: 0, y: 0, side: 4 };
    assert!(decompress(&one_mapping(inside, whole), rounds).is_ok());
    let past = SquareCoords { x: 3, y: 0, side: 2 };
    assert_eq!(decompress(&one_mapping(past, whole), rounds), Err(FractalError::OutOfBounds));
    assert_eq!(decompress(&one_mapping(inside, past), rounds), Err(FractalError::OutOfBounds));
    let empty = SquareCoords { x: 0, y: 0, side: 0 };
    assert_eq!(decompress(&one_mapping(empty, whole), rounds), Err(FractalError::OutOfBounds));
    assert_eq!(decompress(&one_mapping(inside, empty), rounds), Err(FractalError::OutOfBounds));
    let three = SquareCoords { x: 0, y: 0, side: 3 };
    assert_eq!(decompress(&one_mapping(inside, three), rounds), Err(FractalError::NotDivisible));
    assert_eq!(decompress(&one_mapping(whole, inside), rounds), Err(FractalError::NotDivisible));
    let mut c = one_mapping(inside, three);
    c.mapping.push(c.mapping[0]);
    c.mapping[1].small = past;
    assert_eq!(decompress(&c, rounds), Err(FractalError::OutOfBounds));
    let mut sizes = one_mapping(inside, whole);
    sizes.orig_width = 5;
    assert_eq!(decompress(&sizes, rounds), Err(FractalError::OutOfBounds));
    sizes.orig_width = 0;
    assert_eq!(decompress(&sizes, DecompSettings { iterations: 0 }), Err(FractalError::OutOfBounds));
    sizes.orig_width = 4;
    sizes.orig_height = 0;
    assert_eq!(decompress(&sizes, rounds), Err(FractalError::OutOfBounds));
}

#[test]
fn a_channel_comes_back_in_its_size() {
    let channel: Vec<Vec<u8>> =
        (0..61usize).map(|y| (0..77usize).map(|x| ((x * 3 + y * 2) % 256) as u8).collect()).collect();
    let restored = encode_and_decode_ch(channel.clone()).unwrap();
    assert_eq!(restored.len(), 61);
    assert_eq!(restored[0].len(), 77);
    let c = compress(
        &channel,
        CompSettings { big_square_size: 16, small_square_size: 4, grouping_factor: 20 },
    )
    .unwrap();
    assert_eq!(restored, decompress(&c, DecompSettings { iterations: 20 }).unwrap());
}

#[test]
fn a_channel_with_fewer_than_twenty_domain_blocks_has_no_pool() {
    let channel: Vec<Vec<u8>> = (0..16u8).map(|y| (0..16u8).map(|x| x + y).collect()).collect();
    assert_eq!(encode_and_decode_ch(channel), Err(FractalError::EmptyCandidatePool));
}
