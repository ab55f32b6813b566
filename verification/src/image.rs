//! A colour image that can be mapped pixel by pixel.

use vstd::prelude::*;

verus! {

/// A pixel: its red, green and blue samples.
#[derive(Debug, PartialEq, Clone, Copy, Eq)]
pub struct RgbPx {
    pub r: u8,
    pub g: u8,
    pub b: u8,
}

/// A colour image, row by row.
pub struct Image {
    pub pxs: Vec<Vec<RgbPx>>,
}

impl Image {
    /// `out` has a row for each row of the image, of the same length, and
    /// each of its entries is a value that `func` may return for the pixel
    /// at its place.
    pub open spec fn is_mapped<F: Fn(RgbPx) -> T, T>(&self, func: F, out: Seq<Vec<T>>) -> bool {
        &&& out.len() == self.pxs@.len()
        &&& forall|y: int|
            0 <= y < self.pxs@.len() ==> (#[trigger] out[y])@.len() == self.pxs@[y]@.len()
        &&& forall|y: int, x: int|
            0 <= y < self.pxs@.len() && 0 <= x < self.pxs@[y]@.len() ==> call_ensures(
                func,
                (self.pxs@[y]@[x],),
                #[trigger] out[y]@[x],
            )
    }

    /// Applies `func` to each pixel and lays the results out as the pixels
    /// are.
    pub fn map<F, T>(&self, func: F) -> (out: Vec<Vec<T>>) where F: Fn(RgbPx) -> T
        requires
            forall|px: RgbPx| call_requires(func, (px,)),
        ensures
            self.is_mapped(func, out@),
    {
        let mut out: Vec<Vec<T>> = Vec::new();
        let mut y: usize = 0;
        while y < self.pxs.len()
            invariant
                forall|px: RgbPx| call_requires(func, (px,)),
                y <= self.pxs@.len(),
                out@.len() == y,
                forall|b: int| 0 <= b < y ==> (#[trigger] out@[b])@.len() == self.pxs@[b]@.len(),
                forall|b: int, a: int|
                    0 <= b < y && 0 <= a < self.pxs@[b]@.len() ==> call_ensures(
                        func,
                        (self.pxs@[b]@[a],),
                        #[trigger] out@[b]@[a],
                    ),
            decreases self.pxs@.len() - y,
        {
            let line: &Vec<RgbPx> = &self.pxs[y];
            let mut row: Vec<T> = Vec::new();
            let mut x: usize = 0;
            while x < line.len()
                invariant
                    forall|px: RgbPx| call_requires(func, (px,)),
                    x <= line@.len(),
                    row@.len() == x,
                    forall|a: int|
                        0 <= a < x ==> call_ensures(func, (line@[a],), #[trigger] row@[a]),
                decreases line@.len() - x,
            {
                row.push(func(line[x]));
                x = x + 1;
            }
            out.push(row);
            y = y + 1;
        }
        out
    }
}

} // verus!
