use fractal_server::channel::{to_rgb_channels, RgbPx};

#[test]
fn to_rgb_channels_extracts_rgb_channels() {
    let im = vec![vec![RgbPx { r: 0, g: 1, b: 2 }, RgbPx { r: 3, g: 4, b: 5 }]];
    let (r, g, b) = to_rgb_channels(&im);
    assert_eq!(r, vec![vec![0, 3]]);
    assert_eq!(g, vec![vec![1, 4]]);
    assert_eq!(b, vec![vec![2, 5]]);
}
