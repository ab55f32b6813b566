use fractal_server::channel::{map_image, rgb_to_ycrcb, ycrcb_to_rgb, RgbPx};
use fractal_server::ranking::rank_by_key;
use fractal_server::ratio::{gcd_u128, lowest_terms, round_half_away_i128, Ratio};

#[test]
fn gcd_is_the_greatest_common_divisor() {
    assert_eq!(gcd_u128(12, 18), 6);
    assert_eq!(gcd_u128(18, 12), 6);
    assert_eq!(gcd_u128(17, 5), 1);
    assert_eq!(gcd_u128(0, 9), 9);
    assert_eq!(gcd_u128(9, 0), 9);
    assert_eq!(gcd_u128(0, 0), 0);
    assert_eq!(gcd_u128(u128::MAX, u128::MAX - 1), 1);
}

#[test]
fn lowest_terms_have_a_positive_denominator() {
    assert_eq!(lowest_terms(6, 4), (3, 2));
    assert_eq!(lowest_terms(-6, 4), (-3, 2));
    assert_eq!(lowest_terms(6, -4), (-3, 2));
    assert_eq!(lowest_terms(-6, -4), (3, 2));
    assert_eq!(lowest_terms(0, -7), (0, 1));
    assert_eq!(lowest_terms(5, 1), (5, 1));
}

#[test]
fn a_ratio_is_kept_in_lowest_terms() {
    let r = Ratio::new(-80, 160).unwrap();
    assert_eq!((r.num(), r.den()), (-1, 2));
    assert_eq!(Ratio::new(3, -9), Ratio::new(-1, 3));
    assert_eq!(Ratio::new(0, 5), Ratio::new(0, -1));
    assert_eq!(Ratio::reduce(1i128 << 100, 1i128 << 99), Ratio::new(2, 1).unwrap());
}

#[test]
fn a_ratio_needs_a_denominator_and_sixty_four_bits() {
    assert_eq!(Ratio::new(1, 0), None);
    assert_eq!(Ratio::new(0, 0), None);
    assert_eq!(Ratio::new(i64::MIN, -1), None);
    assert_eq!(Ratio::new(1, i64::MIN), None);
    let r = Ratio::new(i64::MIN, 2).unwrap();
    assert_eq!((r.num(), r.den()), (i64::MIN / 2, 1));
    let s = Ratio::new(i64::MIN, 1).unwrap();
    assert_eq!((s.num(), s.den()), (i64::MIN, 1));
    let t = Ratio::new(i64::MIN, i64::MIN).unwrap();
    assert_eq!((t.num(), t.den()), (1, 1));
}

#[test]
fn division_rounds_to_the_nearest_and_ties_away_from_zero() {
    assert_eq!(round_half_away_i128(7, 2), 4);
    assert_eq!(round_half_away_i128(-7, 2), -4);
    assert_eq!(round_half_away_i128(7, -2), -4);
    assert_eq!(round_half_away_i128(-7, -2), 4);
    assert_eq!(round_half_away_i128(5, 3), 2);
    assert_eq!(round_half_away_i128(4, 3), 1);
    assert_eq!(round_half_away_i128(-4, 3), -1);
    assert_eq!(round_half_away_i128(-5, 3), -2);
    assert_eq!(round_half_away_i128(0, 3), 0);
    assert_eq!(round_half_away_i128(1, 2), 1);
    assert_eq!(round_half_away_i128(-1, 2), -1);
}

#[test]
fn ranking_is_by_key_and_keeps_equal_keys_in_order() {
    assert_eq!(rank_by_key(&vec![5, 1, 5, 0, 1, 9, 0]), vec![3, 6, 1, 4, 0, 2, 5]);
    assert_eq!(rank_by_key(&vec![]), Vec::<usize>::new());
    assert_eq!(rank_by_key(&vec![3, 3, 3]), vec![0, 1, 2]);
    assert_eq!(rank_by_key(&vec![u64::MAX, 0]), vec![1, 0]);
    let keys: Vec<u64> = (0..200u64).map(|i| (i * 37) % 11).collect();
    let mut expected: Vec<usize> = (0..200).collect();
    expected.sort_by_key(|&i| keys[i]);
    assert_eq!(rank_by_key(&keys), expected);
}

#[test]
fn luma_and_differences_are_those_of_the_shifted_sums() {
    for r in (0..=255u8).step_by(5) {
        for g in (0..=255u8).step_by(3) {
            for b in (0..=255u8).step_by(17) {
                let (ri, gi, bi) = (r as i32, g as i32, b as i32);
                let y = (77 * ri + 150 * gi + 29 * bi) >> 8;
                let cr = ((128 * ri + -107 * gi + -21 * bi) >> 8) + 128;
                let cb = ((-43 * ri + -85 * gi + 128 * bi) >> 8) + 128;
                assert_eq!(ycrcb_to_rgb(r, g, b), (y as u8, cr as u8, cb as u8));
            }
        }
    }
    assert_eq!(ycrcb_to_rgb(255, 255, 255), (255, 128, 128));
    assert_eq!(ycrcb_to_rgb(255, 0, 0), (76, 255, 85));
    assert_eq!(ycrcb_to_rgb(0, 255, 0), (149, 21, 43));
    assert_eq!(ycrcb_to_rgb(0, 0, 255), (28, 107, 255));
}

#[test]
fn samples_from_luma_and_differences_keep_their_low_byte() {
    for y in (0..=255u8).step_by(5) {
        for cr in (0..=255u8).step_by(3) {
            for cb in (0..=255u8).step_by(7) {
                let (yi, cri, cbi) = (y as i32, cr as i32, cb as i32);
                let r = yi + (256 * (cri - 128) / 183);
                let g = yi - ((5329 * (cbi - 128) + 11103 * (cri - 128)) / 15481);
                let b = yi + (256 * (cbi - 128) / 144);
                assert_eq!(rgb_to_ycrcb(y, cr, cb), (r as u8, g as u8, b as u8));
            }
        }
    }
    assert_eq!(rgb_to_ycrcb(100, 128, 128), (100, 100, 100));
    assert_eq!(rgb_to_ycrcb(0, 0, 0), (77, 135, 29));
    assert_eq!(rgb_to_ycrcb(255, 255, 255), (176, 121, 224));
}

#[test]
fn mapping_an_image_keeps_its_layout() {
    let image = vec![
        vec![RgbPx { r: 1, g: 2, b: 3 }],
        vec![],
        vec![RgbPx { r: 4, g: 5, b: 6 }, RgbPx { r: 7, g: 8, b: 9 }],
    ];
    let sums = map_image(&image, |px| px.r as u16 + px.g as u16 + px.b as u16);
    assert_eq!(sums, vec![vec![6], vec![], vec![15, 24]]);
}
