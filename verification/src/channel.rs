//! Colour images as rows of pixels, and their separation into channels.

use vstd::prelude::*;

verus! {

/// A pixel: its red, green and blue samples.
#[derive(Debug, PartialEq, Clone, Copy, Eq)]
pub struct RgbPx {
    pub r: u8,
    pub g: u8,
    pub b: u8,
}

/// `n / d` with the fractional part dropped, for a positive `d`.
pub open spec fn trunc_div(n: int, d: int) -> int {
    if n >= 0 {
        n / d
    } else {
        -((-n) / d)
    }
}

/// The low eight bits of `v`.
pub open spec fn low_byte(v: int) -> u8 {
    (v % 256) as u8
}

/// The luma of a pixel: 77, 150 and 29 parts in 256 of red, green and blue.
pub open spec fn luma(r: u8, g: u8, b: u8) -> u8 {
    ((77 * r + 150 * g + 29 * b) / 256) as u8
}

/// The red difference of a pixel, moved up by 128.
pub open spec fn red_difference(r: u8, g: u8, b: u8) -> u8 {
    ((128 * r - 107 * g - 21 * b) / 256 + 128) as u8
}

/// The blue difference of a pixel, moved up by 128.
pub open spec fn blue_difference(r: u8, g: u8, b: u8) -> u8 {
    ((-43 * r - 85 * g + 128 * b) / 256 + 128) as u8
}

/// Takes the red, green and blue samples of a pixel to its luma, its red
/// difference and its blue difference, each in integer arithmetic with
/// the fractional part rounded down.
pub fn ycrcb_to_rgb(r: u8, g: u8, b: u8) -> (out: (u8, u8, u8))
    ensures
        out.0 == luma(r, g, b),
        out.1 == red_difference(r, g, b),
        out.2 == blue_difference(r, g, b),
{
    let red: i32 = r as i32;
    let green: i32 = g as i32;
    let blue: i32 = b as i32;
    let y: i32 = (77 * red + 150 * green + 29 * blue) / 256;
    // 32768 is 128 times 256: the sums below are not negative.
    let cr: i32 = (128 * red - 107 * green - 21 * blue + 32768) / 256;
    let cb: i32 = (128 * blue - 43 * red - 85 * green + 32768) / 256;
    (y as u8, cr as u8, cb as u8)
}

/// The red sample that a luma and a red difference stand for, its low
/// eight bits kept.
pub open spec fn red_of(y: u8, cr: u8) -> u8 {
    low_byte(y + trunc_div(256 * (cr - 128), 183))
}

/// The green sample that a luma and two differences stand for, its low
/// eight bits kept.
pub open spec fn green_of(y: u8, cr: u8, cb: u8) -> u8 {
    low_byte(y - trunc_div(5329 * (cb - 128) + 11103 * (cr - 128), 15481))
}

/// The blue sample that a luma and a blue difference stand for, its low
/// eight bits kept.
pub open spec fn blue_of(y: u8, cb: u8) -> u8 {
    low_byte(y + trunc_div(256 * (cb - 128), 144))
}

/// `n / d` with the fractional part dropped.
fn divide_toward_zero(n: i32, d: i32) -> (q: i32)
    requires
        d > 0,
        i32::MIN < n,
    ensures
        q == trunc_div(n as int, d as int),
{
    if n >= 0 {
        n / d
    } else {
        -((-n) / d)
    }
}

/// The low eight bits of `v`.
fn keep_low_byte(v: i32) -> (out: u8)
    requires
        -256 <= v < 0x1000_0000,
    ensures
        out == low_byte(v as int),
{
    ((v + 256) % 256) as u8
}

/// Takes the luma, the red difference and the blue difference of a pixel
/// to its red, green and blue samples, each in integer arithmetic with the
/// fractional part dropped and the low eight bits kept.
pub fn rgb_to_ycrcb(y: u8, cr: u8, cb: u8) -> (out: (u8, u8, u8))
    ensures
        out.0 == red_of(y, cr),
        out.1 == green_of(y, cr, cb),
        out.2 == blue_of(y, cb),
{
    let luma: i32 = y as i32;
    let red: i32 = cr as i32 - 128;
    let blue: i32 = cb as i32 - 128;
    let r: i32 = luma + divide_toward_zero(256 * red, 183);
    let g: i32 = luma - divide_toward_zero(5329 * blue + 11103 * red, 15481);
    let b: i32 = luma + divide_toward_zero(256 * blue, 144);
    (keep_low_byte(r), keep_low_byte(g), keep_low_byte(b))
}

/// `out` has a row for each row of `image`, of the same length, and each of
/// its entries is a value that `func` may return for the pixel at its
/// place.
pub open spec fn is_mapped<F: Fn(RgbPx) -> T, T>(image: Seq<Vec<RgbPx>>, func: F, out: Seq<Vec<T>>) -> bool {
    &&& out.len() == image.len()
    &&& forall|y: int| 0 <= y < image.len() ==> (#[trigger] out[y])@.len() == image[y]@.len()
    &&& forall|y: int, x: int|
        0 <= y < image.len() && 0 <= x < image[y]@.len() ==> call_ensures(
            func,
            (image[y]@[x],),
            #[trigger] out[y]@[x],
        )
}

/// Applies `func` to each pixel and lays the results out as the pixels
/// are.
pub fn map_image<F, T>(image: &Vec<Vec<RgbPx>>, func: F) -> (out: Vec<Vec<T>>) where
    F: Fn(RgbPx) -> T,

    requires
        forall|px: RgbPx| call_requires(func, (px,)),
    ensures
        is_mapped(image@, func, out@),
{
    let mut out: Vec<Vec<T>> = Vec::new();
    let mut y: usize = 0;
    while y < image.len()
        invariant
            forall|px: RgbPx| call_requires(func, (px,)),
            y <= image@.len(),
            out@.len() == y,
            forall|b: int| 0 <= b < y ==> (#[trigger] out@[b])@.len() == image@[b]@.len(),
            forall|b: int, a: int|
                0 <= b < y && 0 <= a < image@[b]@.len() ==> call_ensures(
                    func,
                    (image@[b]@[a],),
                    #[trigger] out@[b]@[a],
                ),
        decreases image@.len() - y,
    {
        let line: &Vec<RgbPx> = &image[y];
        let mut row: Vec<T> = Vec::new();
        let mut x: usize = 0;
        while x < line.len()
            invariant
                forall|px: RgbPx| call_requires(func, (px,)),
                x <= line@.len(),
                row@.len() == x,
                forall|a: int| 0 <= a < x ==> call_ensures(func, (line@[a],), #[trigger] row@[a]),
            decreases line@.len() - x,
        {
            row.push(func(line[x]));
            x = x + 1;
        }
        out.push(row);
        y = y + 1;
    }
    out
}

/// `channel` holds, laid out as the pixels are, one sample of each pixel.
pub open spec fn is_channel(image: Seq<Vec<RgbPx>>, pick: spec_fn(RgbPx) -> u8, channel: Seq<Vec<u8>>) -> bool {
    &&& channel.len() == image.len()
    &&& forall|y: int| 0 <= y < image.len() ==> (#[trigger] channel[y])@.len() == image[y]@.len()
    &&& forall|y: int, x: int|
        0 <= y < image.len() && 0 <= x < image[y]@.len() ==> #[trigger] channel[y]@[x] == pick(
            image[y]@[x],
        )
}

/// The red, the green and the blue samples of an image, each laid out as
/// the pixels are.
pub fn to_rgb_channels(image: &Vec<Vec<RgbPx>>) -> (channels: (Vec<Vec<u8>>, Vec<Vec<u8>>, Vec<Vec<u8>>))
    ensures
        is_channel(image@, |px: RgbPx| px.r, channels.0@),
        is_channel(image@, |px: RgbPx| px.g, channels.1@),
        is_channel(image@, |px: RgbPx| px.b, channels.2@),
{
    let red = |px: RgbPx| -> (v: u8)
        ensures
            v == px.r,
        { px.r };
    let green = |px: RgbPx| -> (v: u8)
        ensures
            v == px.g,
        { px.g };
    let blue = |px: RgbPx| -> (v: u8)
        ensures
            v == px.b,
        { px.b };
    (map_image(image, red), map_image(image, green), map_image(image, blue))
}

} // verus!
