//! Rectangular matrices of 8-bit samples and the operations on them.

use crate::affine::{
    affine_sample, dist_grid, fit_in_range, fit_result, lemma_fit_in_range_count, linear_grid,
    product_total, roughness_grid, sample_total,
};
use crate::error::FractalError;
use crate::grid::{
    block_mean, chunk_coords, chunk_count, divisible_by, grid_height, grid_width, is_matrix,
    lemma_cell_bound, lemma_mean_bound, lemma_place_of_cell, lemma_round_up, pad_grid,
    pixel_count, prefix_sum, products, rect_in_bounds, round_up, rows_sum, same_shape, samples,
    scale_grid, square_grid, square_in_bounds, squared_differences, sub_grid, sums_in_range,
};
use crate::ratio::{
    lemma_reduced_den_positive, lemma_round_half_inward, round_half_away_i128, Ratio,
};
use crate::symmetry::transform_grid;
use vstd::arithmetic::div_mod::lemma_fundamental_div_mod;
use vstd::prelude::*;

verus! {

/// One of the eight symmetries of the square: four rotations, each with or
/// without a reflection.
#[derive(Debug, PartialEq, Clone, Copy, Eq)]
pub enum Transform {
    HeadToTop,
    HeadToRight,
    HeadToBottom,
    HeadToLeft,
    HeadToTopInv,
    HeadToRightInv,
    HeadToBottomInv,
    HeadToLeftInv,
}

impl Transform {
    /// The symmetry reads each row from its end.
    pub open spec fn x_reversed(self) -> bool {
        self is HeadToRight || self is HeadToBottom || self is HeadToTopInv || self is HeadToLeftInv
    }

    /// The symmetry reads the rows from the last one up.
    pub open spec fn y_reversed(self) -> bool {
        self is HeadToBottom || self is HeadToLeft || self is HeadToBottomInv || self is HeadToLeftInv
    }

    /// The symmetry makes rows of columns.
    pub open spec fn axes_swapped(self) -> bool {
        self is HeadToRight || self is HeadToLeft || self is HeadToRightInv || self is HeadToLeftInv
    }

    /// The place of the symmetry in the order in which they are tried.
    pub open spec fn index(self) -> int {
        match self {
            Transform::HeadToTop => 0,
            Transform::HeadToRight => 1,
            Transform::HeadToBottom => 2,
            Transform::HeadToLeft => 3,
            Transform::HeadToTopInv => 4,
            Transform::HeadToRightInv => 5,
            Transform::HeadToBottomInv => 6,
            Transform::HeadToLeftInv => 7,
        }
    }

    /// The symmetry that undoes this one.
    pub open spec fn inverse(self) -> Transform {
        match self {
            Transform::HeadToRight => Transform::HeadToLeft,
            Transform::HeadToLeft => Transform::HeadToRight,
            _ => self,
        }
    }

    /// Whether the symmetry reverses the columns, whether it reverses the
    /// rows, and whether it swaps the axes.
    pub fn flips(self) -> (r: (bool, bool, bool))
        ensures
            r.0 == self.x_reversed(),
            r.1 == self.y_reversed(),
            r.2 == self.axes_swapped(),
    {
        match self {
            Transform::HeadToTop => (false, false, false),
            Transform::HeadToRight => (true, false, true),
            Transform::HeadToBottom => (true, true, false),
            Transform::HeadToLeft => (false, true, true),
            Transform::HeadToTopInv => (true, false, false),
            Transform::HeadToRightInv => (false, false, true),
            Transform::HeadToBottomInv => (false, true, false),
            Transform::HeadToLeftInv => (true, true, true),
        }
    }

    /// The symmetry at place `index` of the order in which they are tried.
    pub fn from_index(index: usize) -> (t: Transform)
        requires
            index < 8,
        ensures
            t.index() == index,
    {
        if index == 0 {
            Transform::HeadToTop
        } else if index == 1 {
            Transform::HeadToRight
        } else if index == 2 {
            Transform::HeadToBottom
        } else if index == 3 {
            Transform::HeadToLeft
        } else if index == 4 {
            Transform::HeadToTopInv
        } else if index == 5 {
            Transform::HeadToRightInv
        } else if index == 6 {
            Transform::HeadToBottomInv
        } else {
            Transform::HeadToLeftInv
        }
    }

    /// The symmetry that undoes this one.
    pub fn inverted(self) -> (t: Transform)
        ensures
            t == self.inverse(),
    {
        match self {
            Transform::HeadToRight => Transform::HeadToLeft,
            Transform::HeadToLeft => Transform::HeadToRight,
            _ => self,
        }
    }
}

/// The parameters of an affine intensity map: a sample `v` goes to
/// `v * factor + shift`, rounded to the nearest sample.
#[derive(Debug, PartialEq, Clone, Copy)]
pub struct LinearCoeffs {
    pub shift: i16,
    pub factor: Ratio,
}

impl LinearCoeffs {
    /// The sample that this map makes of `v`.
    pub fn apply(&self, v: u8) -> (r: u8)
        ensures
            r == affine_sample(v, *self),
    {
        let num: i128 = self.factor.num() as i128;
        let den: i128 = self.factor.den() as i128;
        let shift: i128 = self.shift as i128;
        assert(-0x8000_0000_0000_0000 * 255 <= (v as i128) * num <= 0x8000_0000_0000_0000 * 255)
            by (nonlinear_arith)
            requires
                -0x8000_0000_0000_0000 <= num <= 0x8000_0000_0000_0000,
                0 <= v <= 255,
        ;
        assert(-0x8000_0000_0000_0000 * 0x8000 <= shift * den <= 0x8000_0000_0000_0000 * 0x8000)
            by (nonlinear_arith)
            requires
                0 < den <= 0x8000_0000_0000_0000,
                -0x8000 <= shift <= 0x8000,
        ;
        let total: i128 = (v as i128) * num + shift * den;
        proof {
            lemma_round_half_inward(total as int, den as int);
        }
        if total <= 0 {
            0
        } else {
            let q: i128 = (2 * total + den - 1) / (2 * den);
            if q > 255 {
                255
            } else {
                q as u8
            }
        }
    }
}

/// A square of samples inside a matrix: the column and row of its top left
/// corner, and the length of its side.
#[derive(Debug, PartialEq, Clone, Copy, Eq)]
pub struct SquareCoords {
    pub x: usize,
    pub y: usize,
    pub side: usize,
}

/// A rectangular matrix of 8-bit samples, stored row by row.
///
/// Every operation takes a matrix with at least one row and rows of one
/// non-zero length, and gives back matrices of that kind; none changes the
/// matrix it is called on.
pub trait ByteRect: Sized {
    /// The samples, row by row.
    spec fn grid(&self) -> Seq<Seq<u8>>;

    /// The number of samples in a row.
    fn width(&self) -> (w: usize)
        requires
            is_matrix(self.grid()),
        ensures
            w == grid_width(self.grid()),
    ;

    /// The number of rows.
    fn height(&self) -> (h: usize)
        requires
            is_matrix(self.grid()),
        ensures
            h == grid_height(self.grid()),
    ;

    /// A copy of the `width` by `height` samples whose top left corner is
    /// at column `x` of row `y`, or `OutOfBounds` where that rectangle is
    /// empty or reaches past the matrix.
    fn get_rect(&self, x: usize, y: usize, width: usize, height: usize) -> (r: Result<
        Self,
        FractalError,
    >)
        requires
            is_matrix(self.grid()),
        ensures
            r is Ok <==> rect_in_bounds(
                self.grid(),
                x as int,
                y as int,
                width as int,
                height as int,
            ),
            r matches Ok(m) ==> m.grid() == sub_grid(
                self.grid(),
                x as int,
                y as int,
                width as int,
                height as int,
            ),
            r matches Err(e) ==> e == FractalError::OutOfBounds,
    ;

    /// A copy of the samples of the square `sq`, or `OutOfBounds` where the
    /// square is empty or reaches past the matrix.
    fn get_square(&self, sq: SquareCoords) -> (r: Result<Self, FractalError>)
        requires
            is_matrix(self.grid()),
        ensures
            r is Ok <==> square_in_bounds(self.grid(), sq),
            r matches Ok(m) ==> m.grid() == square_grid(self.grid(), sq),
            r matches Err(e) ==> e == FractalError::OutOfBounds,
    {
        self.get_rect(sq.x, sq.y, sq.side, sq.side)
    }

    /// The matrix turned or mirrored by the symmetry `t`.
    fn transform(&self, t: Transform) -> (r: Self)
        requires
            is_matrix(self.grid()),
        ensures
            r.grid() == transform_grid(self.grid(), t),
    ;

    /// The matrix made smaller `times` times in each direction, each sample
    /// the mean, cut to an integer, of a `times` by `times` block; or
    /// `NotDivisible` where `times` is zero or does not divide both width
    /// and height.
    fn scale_down(&self, times: usize) -> (r: Result<Self, FractalError>)
        requires
            is_matrix(self.grid()),
            sums_in_range(pixel_count(self.grid())),
        ensures
            r is Ok <==> divisible_by(self.grid(), times as int),
            r matches Ok(m) ==> m.grid() == scale_grid(self.grid(), times as int),
            r matches Err(e) ==> e == FractalError::NotDivisible,
    ;

    /// The matrix with the affine map `c` applied to each sample: the value
    /// of `v * factor + shift` is rounded to the nearest integer, a tie
    /// going toward zero, and brought into `0 ..= 255`.
    fn linear(&self, c: LinearCoeffs) -> (r: Self)
        requires
            is_matrix(self.grid()),
        ensures
            r.grid() == linear_grid(self.grid(), c),
    ;

    /// The sum of the squared differences between the samples of `self` and
    /// those of `other`, or `DimensionMismatch` where their shapes differ.
    fn dist(&self, other: &Self) -> (r: Result<u64, FractalError>)
        requires
            is_matrix(self.grid()),
            is_matrix(other.grid()),
            sums_in_range(pixel_count(self.grid())),
        ensures
            r is Ok <==> same_shape(self.grid(), other.grid()),
            r matches Ok(d) ==> d == dist_grid(self.grid(), other.grid()),
            r matches Err(e) ==> e == FractalError::DimensionMismatch,
    ;

    /// How rough the matrix is: the squared error between the matrix
    /// without its last row and column and the matrix without its first
    /// row and column, or 1 where it has fewer than two rows or columns.
    fn roughness(&self) -> (r: u64)
        requires
            is_matrix(self.grid()),
            sums_in_range(pixel_count(self.grid())),
        ensures
            r == roughness_grid(self.grid()),
    {
        let w: usize = self.width();
        let h: usize = self.height();
        if w < 2 || h < 2 {
            1
        } else {
            proof {
                assert((w - 1) * (h - 1) <= w * h) by (nonlinear_arith)
                    requires
                        w >= 2,
                        h >= 2,
                ;
            }
            match (self.get_rect(0, 0, w - 1, h - 1), self.get_rect(1, 1, w - 1, h - 1)) {
                (Ok(a), Ok(b)) => {
                    match a.dist(&b) {
                        Ok(d) => d,
                        Err(_) => 1,
                    }
                },
                _ => 1,
            }
        }
    }

    /// The matrix widened and heightened to the next multiple of `divisor`
    /// by repeating its last column and its last row, or `NotDivisible`
    /// where `divisor` is zero.
    fn pad_to_divisible_by(&self, divisor: usize) -> (r: Result<Self, FractalError>)
        requires
            is_matrix(self.grid()),
            round_up(grid_width(self.grid()), divisor as int) <= usize::MAX,
            round_up(grid_height(self.grid()), divisor as int) <= usize::MAX,
        ensures
            r is Ok <==> divisor > 0,
            r matches Ok(m) ==> m.grid() == pad_grid(self.grid(), divisor as int),
            r matches Err(e) ==> e == FractalError::NotDivisible,
    ;

    /// The matrix cut into squares of side `size`, row by row from the top
    /// left, each with its place in the matrix; or `NotDivisible` where
    /// `size` is zero or does not divide both width and height.
    fn to_square_chunks(&self, size: usize) -> (r: Result<Vec<(SquareCoords, Self)>, FractalError>)
        requires
            is_matrix(self.grid()),
        ensures
            r is Ok <==> divisible_by(self.grid(), size as int),
            r matches Ok(chunks) ==> {
                &&& chunks@.len() == chunk_count(
                    grid_width(self.grid()),
                    grid_height(self.grid()),
                    size as int,
                )
                &&& forall|k: int|
                    0 <= k < chunks@.len() ==> {
                        &&& (#[trigger] chunks@[k]).0 == chunk_coords(
                            grid_width(self.grid()),
                            size as int,
                            k,
                        )
                        &&& chunks@[k].1.grid() == square_grid(self.grid(), chunks@[k].0)
                    }
            },
            r matches Err(e) ==> e == FractalError::NotDivisible,
    ;

    /// The affine map that takes `self` closest to `other` in squared
    /// error: the factor exactly, the shift rounded. There is none where the
    /// shapes differ (`DimensionMismatch`), nor where the determinant of the
    /// fit is zero, which is where all samples of `self` are equal
    /// (`DegenerateFit`).
    fn best_coeffs_to_match(&self, other: &Self) -> (r: Result<LinearCoeffs, FractalError>)
        requires
            is_matrix(self.grid()),
            is_matrix(other.grid()),
            fit_in_range(pixel_count(self.grid())),
        ensures
            r == fit_result(self.grid(), other.grid()),
    ;
}

/// The four sums that a fit of `a` to `b` is made of: the samples of `a`,
/// the samples of `b`, the squares of the samples of `a`, and the products
/// of the samples of `a` with those of `b`.
fn fit_sums(a: &Vec<Vec<u8>>, b: &Vec<Vec<u8>>) -> (r: (u64, u64, u64, u64))
    requires
        is_matrix(a.grid()),
        is_matrix(b.grid()),
        same_shape(a.grid(), b.grid()),
        sums_in_range(pixel_count(a.grid())),
    ensures
        r.0 == sample_total(a.grid()),
        r.1 == sample_total(b.grid()),
        r.2 == product_total(a.grid(), a.grid()),
        r.3 == product_total(a.grid(), b.grid()),
        r.0 <= pixel_count(a.grid()) * 255,
        r.1 <= pixel_count(a.grid()) * 255,
        r.2 <= pixel_count(a.grid()) * 65025,
        r.3 <= pixel_count(a.grid()) * 65025,
{
    let width: usize = a.width();
    let height: usize = a.height();
    let ghost ta = samples(a.grid());
    let ghost tb = samples(b.grid());
    let ghost taa = products(a.grid(), a.grid());
    let ghost tab = products(a.grid(), b.grid());
    let mut sum_a: u64 = 0;
    let mut sum_b: u64 = 0;
    let mut sum_aa: u64 = 0;
    let mut sum_ab: u64 = 0;
    let mut y: usize = 0;
    while y < height
        invariant
            is_matrix(a.grid()),
            is_matrix(b.grid()),
            same_shape(a.grid(), b.grid()),
            width == grid_width(a.grid()),
            height == grid_height(a.grid()),
            sums_in_range(width * height),
            ta == samples(a.grid()),
            tb == samples(b.grid()),
            taa == products(a.grid(), a.grid()),
            tab == products(a.grid(), b.grid()),
            y <= height,
            sum_a == rows_sum(ta, y as int),
            sum_b == rows_sum(tb, y as int),
            sum_aa == rows_sum(taa, y as int),
            sum_ab == rows_sum(tab, y as int),
            sum_a <= y * width * 255,
            sum_b <= y * width * 255,
            sum_aa <= y * width * 65025,
            sum_ab <= y * width * 65025,
        decreases height - y,
    {
        let mut x: usize = 0;
        let mut row_a: u64 = 0;
        let mut row_b: u64 = 0;
        let mut row_aa: u64 = 0;
        let mut row_ab: u64 = 0;
        proof {
            lemma_cell_bound(0, y as int, width as int, height as int);
        }
        while x < width
            invariant
                is_matrix(a.grid()),
                is_matrix(b.grid()),
                same_shape(a.grid(), b.grid()),
                width == grid_width(a.grid()),
                height == grid_height(a.grid()),
                sums_in_range(width * height),
                ta == samples(a.grid()),
                tb == samples(b.grid()),
                taa == products(a.grid(), a.grid()),
                tab == products(a.grid(), b.grid()),
                y < height,
                x <= width,
                y * width + width <= width * height,
                row_a == prefix_sum(ta[y as int], x as int),
                row_b == prefix_sum(tb[y as int], x as int),
                row_aa == prefix_sum(taa[y as int], x as int),
                row_ab == prefix_sum(tab[y as int], x as int),
                row_a <= x * 255,
                row_b <= x * 255,
                row_aa <= x * 65025,
                row_ab <= x * 65025,
            decreases width - x,
        {
            let va: u64 = a[y][x] as u64;
            let vb: u64 = b[y][x] as u64;
            assert(va * va <= 65025 && va * vb <= 65025) by (nonlinear_arith)
                requires
                    va <= 255,
                    vb <= 255,
            ;
            assert(ta[y as int][x as int] == va);
            assert(tb[y as int][x as int] == vb);
            assert(taa[y as int][x as int] == va * va);
            assert(tab[y as int][x as int] == va * vb);
            row_a = row_a + va;
            row_b = row_b + vb;
            row_aa = row_aa + va * va;
            row_ab = row_ab + va * vb;
            x = x + 1;
        }
        proof {
            assert((y + 1) * width * 65025 == y * width * 65025 + width * 65025)
                by (nonlinear_arith);
            assert((y + 1) * width * 255 == y * width * 255 + width * 255) by (nonlinear_arith);
            assert(ta[y as int].len() == width);
            assert(tb[y as int].len() == width);
            assert(taa[y as int].len() == width);
            assert(tab[y as int].len() == width);
        }
        sum_a = sum_a + row_a;
        sum_b = sum_b + row_b;
        sum_aa = sum_aa + row_aa;
        sum_ab = sum_ab + row_ab;
        y = y + 1;
    }
    proof {
        assert(height * width == width * height) by (nonlinear_arith);
    }
    (sum_a, sum_b, sum_aa, sum_ab)
}

/// A copy of the `width` by `height` samples whose top left corner is at
/// column `x` of row `y`.
pub fn copy_rect(m: &Vec<Vec<u8>>, x: usize, y: usize, width: usize, height: usize) -> (r: Vec<Vec<u8>>)
    requires
        is_matrix(m.grid()),
        rect_in_bounds(m.grid(), x as int, y as int, width as int, height as int),
    ensures
        r.grid() == sub_grid(m.grid(), x as int, y as int, width as int, height as int),
{
    let ghost target = sub_grid(m.grid(), x as int, y as int, width as int, height as int);
    let w: usize = m.width();
    let h: usize = m.height();
    let mut out: Vec<Vec<u8>> = Vec::new();
    let mut j: usize = 0;
    while j < height
        invariant
            is_matrix(m.grid()),
            w == grid_width(m.grid()),
            h == grid_height(m.grid()),
            rect_in_bounds(m.grid(), x as int, y as int, width as int, height as int),
            target == sub_grid(m.grid(), x as int, y as int, width as int, height as int),
            j <= height,
            out@.len() == j,
            forall|b: int| 0 <= b < j ==> (#[trigger] out@[b])@ == target[b],
        decreases height - j,
    {
        let mut row: Vec<u8> = Vec::new();
        let mut i: usize = 0;
        assert(m.grid()[y + j].len() == grid_width(m.grid()));
        while i < width
            invariant
                is_matrix(m.grid()),
                w == grid_width(m.grid()),
                h == grid_height(m.grid()),
                rect_in_bounds(m.grid(), x as int, y as int, width as int, height as int),
                target == sub_grid(m.grid(), x as int, y as int, width as int, height as int),
                j < height,
                i <= width,
                m.grid()[y + j].len() == grid_width(m.grid()),
                row@.len() == i,
                forall|a: int| 0 <= a < i ==> #[trigger] row@[a] == target[j as int][a],
            decreases width - i,
        {
            row.push(m[y + j][x + i]);
            i = i + 1;
        }
        assert(row@ =~= target[j as int]);
        out.push(row);
        j = j + 1;
    }
    assert(out.grid() =~= target);
    out
}

/// The mean, cut to an integer, of the `side` by `side` samples whose top
/// left corner is at column `x` of row `y`.
pub fn rect_avg(vec: &Vec<Vec<u8>>, x: usize, y: usize, side: usize) -> (r: u8)
    requires
        is_matrix(vec.grid()),
        rect_in_bounds(vec.grid(), x as int, y as int, side as int, side as int),
        sums_in_range(side * side),
    ensures
        r == block_mean(vec.grid(), x as int, y as int, side as int),
{
    let ghost t = samples(sub_grid(vec.grid(), x as int, y as int, side as int, side as int));
    let w: usize = vec.width();
    let h: usize = vec.height();
    let mut total: u64 = 0;
    let mut j: usize = 0;
    while j < side
        invariant
            is_matrix(vec.grid()),
            w == grid_width(vec.grid()),
            h == grid_height(vec.grid()),
            rect_in_bounds(vec.grid(), x as int, y as int, side as int, side as int),
            sums_in_range(side * side),
            t == samples(sub_grid(vec.grid(), x as int, y as int, side as int, side as int)),
            j <= side,
            total == rows_sum(t, j as int),
            total <= j * side * 255,
        decreases side - j,
    {
        let mut row_total: u64 = 0;
        let mut i: usize = 0;
        proof {
            lemma_cell_bound(0, j as int, side as int, side as int);
            assert(vec.grid()[y + j].len() == grid_width(vec.grid()));
        }
        while i < side
            invariant
                is_matrix(vec.grid()),
                w == grid_width(vec.grid()),
                h == grid_height(vec.grid()),
                rect_in_bounds(vec.grid(), x as int, y as int, side as int, side as int),
                sums_in_range(side * side),
                t == samples(sub_grid(vec.grid(), x as int, y as int, side as int, side as int)),
                j < side,
                i <= side,
                vec.grid()[y + j].len() == grid_width(vec.grid()),
                total <= j * side * 255,
                j * side + side <= side * side,
                row_total == prefix_sum(t[j as int], i as int),
                row_total <= i * 255,
            decreases side - i,
        {
            let v: u64 = vec[y + j][x + i] as u64;
            assert(t[j as int][i as int] == v);
            row_total = row_total + v;
            i = i + 1;
        }
        proof {
            assert((j + 1) * side * 255 == j * side * 255 + side * 255) by (nonlinear_arith);
            assert(t[j as int].len() == side);
        }
        total = total + row_total;
        j = j + 1;
    }
    proof {
        lemma_cell_bound(0, 0, side as int, side as int);
        lemma_mean_bound(total as int, side * side);
    }
    let count: u64 = (side as u64) * (side as u64);
    (total / count) as u8
}

/// The matrix made smaller `times` times in each direction, each sample the
/// mean, cut to an integer, of a `times` by `times` block.
pub fn shrink(m: &Vec<Vec<u8>>, times: usize) -> (r: Vec<Vec<u8>>)
    requires
        is_matrix(m.grid()),
        divisible_by(m.grid(), times as int),
        sums_in_range(pixel_count(m.grid())),
    ensures
        r.grid() == scale_grid(m.grid(), times as int),
{
    let width: usize = m.width();
    let height: usize = m.height();
    let rows: usize = height / times;
    let cols: usize = width / times;
    let ghost target = scale_grid(m.grid(), times as int);
    proof {
        lemma_fundamental_div_mod(width as int, times as int);
        lemma_fundamental_div_mod(height as int, times as int);
        assert(times * times <= width * height) by (nonlinear_arith)
            requires
                width == times * cols,
                height == times * rows,
                width > 0,
                height > 0,
                times > 0,
        ;
    }
    let mut out: Vec<Vec<u8>> = Vec::new();
    let mut j: usize = 0;
    while j < rows
        invariant
            is_matrix(m.grid()),
            width == grid_width(m.grid()),
            height == grid_height(m.grid()),
            times > 0,
            rows == height / times,
            cols == width / times,
            width == times * cols,
            height == times * rows,
            sums_in_range(times * times),
            target == scale_grid(m.grid(), times as int),
            j <= rows,
            out@.len() == j,
            forall|b: int| 0 <= b < j ==> (#[trigger] out@[b])@ == target[b],
        decreases rows - j,
    {
        let mut row: Vec<u8> = Vec::new();
        let mut i: usize = 0;
        proof {
            assert(0 <= j * times && j * times + times <= height) by (nonlinear_arith)
                requires
                    0 <= j < rows,
                    height == times * rows,
                    times > 0,
            ;
        }
        while i < cols
            invariant
                is_matrix(m.grid()),
                width == grid_width(m.grid()),
                height == grid_height(m.grid()),
                times > 0,
                rows == height / times,
                cols == width / times,
                width == times * cols,
                height == times * rows,
                sums_in_range(times * times),
                target == scale_grid(m.grid(), times as int),
                j < rows,
                i <= cols,
                0 <= j * times,
                j * times + times <= height,
                row@.len() == i,
                forall|a: int| 0 <= a < i ==> #[trigger] row@[a] == target[j as int][a],
            decreases cols - i,
        {
            proof {
                assert(0 <= i * times && i * times + times <= width) by (nonlinear_arith)
                    requires
                        0 <= i < cols,
                        width == times * cols,
                        times > 0,
                ;
            }
            row.push(rect_avg(m, i * times, j * times, times));
            i = i + 1;
        }
        assert(row@ =~= target[j as int]);
        out.push(row);
        j = j + 1;
    }
    assert(out.grid() =~= target);
    out
}

impl ByteRect for Vec<Vec<u8>> {
    open spec fn grid(&self) -> Seq<Seq<u8>> {
        Seq::new(self@.len(), |y: int| self@[y]@)
    }

    fn width(&self) -> (w: usize) {
        self[0].len()
    }

    fn height(&self) -> (h: usize) {
        self.len()
    }

    fn get_rect(&self, x: usize, y: usize, width: usize, height: usize) -> (r: Result<
        Self,
        FractalError,
    >) {
        let w: usize = self.width();
        let h: usize = self.height();
        if width == 0 || height == 0 || x > w || width > w - x || y > h || height > h - y {
            return Err(FractalError::OutOfBounds);
        }
        Ok(copy_rect(self, x, y, width, height))
    }

    fn scale_down(&self, times: usize) -> (r: Result<Self, FractalError>) {
        let width: usize = self.width();
        let height: usize = self.height();
        if times == 0 || height % times != 0 || width % times != 0 {
            return Err(FractalError::NotDivisible);
        }
        Ok(shrink(self, times))
    }

    fn linear(&self, c: LinearCoeffs) -> (r: Self) {
        let width: usize = self.width();
        let height: usize = self.height();
        let ghost target = linear_grid(self.grid(), c);
        let mut out: Vec<Vec<u8>> = Vec::new();
        let mut y: usize = 0;
        while y < height
            invariant
                is_matrix(self.grid()),
                width == grid_width(self.grid()),
                height == grid_height(self.grid()),
                target == linear_grid(self.grid(), c),
                y <= height,
                out@.len() == y,
                forall|b: int| 0 <= b < y ==> (#[trigger] out@[b])@ == target[b],
            decreases height - y,
        {
            let mut row: Vec<u8> = Vec::new();
            let mut x: usize = 0;
            assert(self.grid()[y as int].len() == width);
            while x < width
                invariant
                    is_matrix(self.grid()),
                    width == grid_width(self.grid()),
                    height == grid_height(self.grid()),
                    target == linear_grid(self.grid(), c),
                    y < height,
                    x <= width,
                    self.grid()[y as int].len() == width,
                    row@.len() == x,
                    forall|a: int| 0 <= a < x ==> #[trigger] row@[a] == target[y as int][a],
                decreases width - x,
            {
                row.push(c.apply(self[y][x]));
                x = x + 1;
            }
            assert(row@ =~= target[y as int]);
            out.push(row);
            y = y + 1;
        }
        assert(out.grid() =~= target);
        out
    }

    fn pad_to_divisible_by(&self, divisor: usize) -> (r: Result<Self, FractalError>) {
        if divisor == 0 {
            return Err(FractalError::NotDivisible);
        }
        let orig_width: usize = self.width();
        let orig_height: usize = self.height();
        proof {
            lemma_round_up(orig_width as int, divisor as int);
            lemma_round_up(orig_height as int, divisor as int);
        }
        let width: usize = if orig_width % divisor == 0 {
            orig_width
        } else {
            orig_width - orig_width % divisor + divisor
        };
        let height: usize = if orig_height % divisor == 0 {
            orig_height
        } else {
            orig_height - orig_height % divisor + divisor
        };
        let ghost target = pad_grid(self.grid(), divisor as int);
        let mut out: Vec<Vec<u8>> = Vec::new();
        let mut y: usize = 0;
        while y < height
            invariant
                is_matrix(self.grid()),
                orig_width == grid_width(self.grid()),
                orig_height == grid_height(self.grid()),
                width == round_up(orig_width as int, divisor as int),
                height == round_up(orig_height as int, divisor as int),
                target == pad_grid(self.grid(), divisor as int),
                y <= height,
                out@.len() == y,
                forall|b: int| 0 <= b < y ==> (#[trigger] out@[b])@ == target[b],
            decreases height - y,
        {
            let sy: usize = if y < orig_height {
                y
            } else {
                orig_height - 1
            };
            let mut row: Vec<u8> = Vec::new();
            let mut x: usize = 0;
            assert(self.grid()[sy as int].len() == orig_width);
            while x < width
                invariant
                    is_matrix(self.grid()),
                    orig_width == grid_width(self.grid()),
                    orig_height == grid_height(self.grid()),
                    width == round_up(orig_width as int, divisor as int),
                    height == round_up(orig_height as int, divisor as int),
                    target == pad_grid(self.grid(), divisor as int),
                    y < height,
                    x <= width,
                    sy == if y < orig_height {
                        y
                    } else {
                        (orig_height - 1) as usize
                    },
                    self.grid()[sy as int].len() == orig_width,
                    row@.len() == x,
                    forall|a: int| 0 <= a < x ==> #[trigger] row@[a] == target[y as int][a],
                decreases width - x,
            {
                let sx: usize = if x < orig_width {
                    x
                } else {
                    orig_width - 1
                };
                row.push(self[sy][sx]);
                x = x + 1;
            }
            assert(row@ =~= target[y as int]);
            out.push(row);
            y = y + 1;
        }
        assert(out.grid() =~= target);
        Ok(out)
    }

    fn to_square_chunks(&self, size: usize) -> (r: Result<Vec<(SquareCoords, Self)>, FractalError>) {
        let width: usize = self.width();
        let height: usize = self.height();
        if size == 0 || height % size != 0 || width % size != 0 {
            return Err(FractalError::NotDivisible);
        }
        let nx: usize = width / size;
        let ny: usize = height / size;
        proof {
            lemma_fundamental_div_mod(width as int, size as int);
            lemma_fundamental_div_mod(height as int, size as int);
        }
        let mut chunks: Vec<(SquareCoords, Vec<Vec<u8>>)> = Vec::new();
        let mut cy: usize = 0;
        while cy < ny
            invariant
                is_matrix(self.grid()),
                width == grid_width(self.grid()),
                height == grid_height(self.grid()),
                size > 0,
                nx == width / size,
                ny == height / size,
                width == size * nx,
                height == size * ny,
                cy <= ny,
                chunks@.len() == cy * nx,
                forall|k: int|
                    0 <= k < chunks@.len() ==> {
                        &&& (#[trigger] chunks@[k]).0 == chunk_coords(width as int, size as int, k)
                        &&& chunks@[k].1.grid() == square_grid(self.grid(), chunks@[k].0)
                    },
            decreases ny - cy,
        {
            let mut cx: usize = 0;
            proof {
                assert(0 <= cy * size && cy * size + size <= height) by (nonlinear_arith)
                    requires
                        0 <= cy < ny,
                        height == size * ny,
                        size > 0,
                ;
                assert(0 <= cy * nx && (cy + 1) * nx == cy * nx + nx) by (nonlinear_arith)
                    requires
                        0 <= cy,
                        0 <= nx,
                ;
            }
            while cx < nx
                invariant
                    is_matrix(self.grid()),
                    width == grid_width(self.grid()),
                    height == grid_height(self.grid()),
                    size > 0,
                    nx == width / size,
                    ny == height / size,
                    width == size * nx,
                    height == size * ny,
                    cy < ny,
                    cx <= nx,
                    0 <= cy * size,
                    cy * size + size <= height,
                    0 <= cy * nx,
                    chunks@.len() == cy * nx + cx,
                    forall|k: int|
                        0 <= k < chunks@.len() ==> {
                            &&& (#[trigger] chunks@[k]).0 == chunk_coords(
                                width as int,
                                size as int,
                                k,
                            )
                            &&& chunks@[k].1.grid() == square_grid(self.grid(), chunks@[k].0)
                        },
                decreases nx - cx,
            {
                proof {
                    assert(0 <= cx * size && cx * size + size <= width) by (nonlinear_arith)
                        requires
                            0 <= cx < nx,
                            width == size * nx,
                            size > 0,
                    ;
                    lemma_place_of_cell(cx as int, cy as int, nx as int);
                }
                let coords = SquareCoords { x: cx * size, y: cy * size, side: size };
                let chunk: Vec<Vec<u8>> = copy_rect(self, coords.x, coords.y, size, size);
                chunks.push((coords, chunk));
                cx = cx + 1;
            }
            cy = cy + 1;
        }
        proof {
            assert(ny * nx == nx * ny) by (nonlinear_arith);
        }
        Ok(chunks)
    }

    fn transform(&self, t: Transform) -> (r: Self) {
        let width: usize = self.width();
        let height: usize = self.height();
        let (x_rev, y_rev, swap): (bool, bool, bool) = t.flips();
        let rows: usize = if swap {
            width
        } else {
            height
        };
        let cols: usize = if swap {
            height
        } else {
            width
        };
        let ghost target = transform_grid(self.grid(), t);
        let mut out: Vec<Vec<u8>> = Vec::new();
        let mut i: usize = 0;
        while i < rows
            invariant
                is_matrix(self.grid()),
                width == grid_width(self.grid()),
                height == grid_height(self.grid()),
                x_rev == t.x_reversed(),
                y_rev == t.y_reversed(),
                swap == t.axes_swapped(),
                rows == if swap {
                    width
                } else {
                    height
                },
                cols == if swap {
                    height
                } else {
                    width
                },
                target == transform_grid(self.grid(), t),
                i <= rows,
                out@.len() == i,
                forall|b: int| 0 <= b < i ==> (#[trigger] out@[b])@ == target[b],
            decreases rows - i,
        {
            let mut row: Vec<u8> = Vec::new();
            let mut j: usize = 0;
            while j < cols
                invariant
                    is_matrix(self.grid()),
                    width == grid_width(self.grid()),
                    height == grid_height(self.grid()),
                    x_rev == t.x_reversed(),
                    y_rev == t.y_reversed(),
                    swap == t.axes_swapped(),
                    rows == if swap {
                        width
                    } else {
                        height
                    },
                    cols == if swap {
                        height
                    } else {
                        width
                    },
                    target == transform_grid(self.grid(), t),
                    i < rows,
                    j <= cols,
                    row@.len() == j,
                    forall|a: int| 0 <= a < j ==> #[trigger] row@[a] == target[i as int][a],
                decreases cols - j,
            {
                let x: usize = if swap {
                    i
                } else {
                    j
                };
                let y: usize = if swap {
                    j
                } else {
                    i
                };
                let sx: usize = if x_rev {
                    width - 1 - x
                } else {
                    x
                };
                let sy: usize = if y_rev {
                    height - 1 - y
                } else {
                    y
                };
                assert(self.grid()[sy as int].len() == width);
                row.push(self[sy][sx]);
                j = j + 1;
            }
            assert(row@ =~= target[i as int]);
            out.push(row);
            i = i + 1;
        }
        assert(out.grid() =~= target);
        out
    }

    fn dist(&self, other: &Self) -> (r: Result<u64, FractalError>) {
        let width: usize = self.width();
        let height: usize = self.height();
        if other.height() != height || other.width() != width {
            return Err(FractalError::DimensionMismatch);
        }
        let ghost t = squared_differences(self.grid(), other.grid());
        let mut total: u64 = 0;
        let mut y: usize = 0;
        while y < height
            invariant
                is_matrix(self.grid()),
                is_matrix(other.grid()),
                same_shape(self.grid(), other.grid()),
                width == grid_width(self.grid()),
                height == grid_height(self.grid()),
                sums_in_range(width * height),
                t == squared_differences(self.grid(), other.grid()),
                y <= height,
                total == rows_sum(t, y as int),
                total <= y * width * 65025,
            decreases height - y,
        {
            let mut x: usize = 0;
            let mut row_total: u64 = 0;
            proof {
                lemma_cell_bound(0, y as int, width as int, height as int);
            }
            while x < width
                invariant
                    is_matrix(self.grid()),
                    is_matrix(other.grid()),
                    same_shape(self.grid(), other.grid()),
                    width == grid_width(self.grid()),
                    height == grid_height(self.grid()),
                    sums_in_range(width * height),
                    t == squared_differences(self.grid(), other.grid()),
                    y < height,
                    x <= width,
                    total <= y * width * 65025,
                    y * width + width <= width * height,
                    row_total == prefix_sum(t[y as int], x as int),
                    row_total <= x * 65025,
                decreases width - x,
            {
                let a: i64 = self[y][x] as i64;
                let b: i64 = other[y][x] as i64;
                let d: i64 = a - b;
                assert(0 <= d * d <= 65025) by (nonlinear_arith)
                    requires
                        -255 <= d <= 255,
                ;
                let sq: u64 = (d * d) as u64;
                assert(t[y as int][x as int] == sq);
                row_total = row_total + sq;
                x = x + 1;
            }
            proof {
                assert((y + 1) * width * 65025 == y * width * 65025 + width * 65025)
                    by (nonlinear_arith);
                assert(t[y as int].len() == width);
            }
            total = total + row_total;
            y = y + 1;
        }
        assert(t.len() == height);
        Ok(total)
    }

    fn best_coeffs_to_match(&self, other: &Self) -> (r: Result<LinearCoeffs, FractalError>) {
        let width: usize = self.width();
        let height: usize = self.height();
        if other.height() != height || other.width() != width {
            return Err(FractalError::DimensionMismatch);
        }
        proof {
            lemma_cell_bound(0, 0, width as int, height as int);
            lemma_fit_in_range_count(width * height);
        }
        let (sum_a, sum_b, sum_aa, sum_ab): (u64, u64, u64, u64) = fit_sums(self, other);
        let count: i128 = (width as i128) * (height as i128);
        let s1: i128 = sum_a as i128;
        let o1: i128 = sum_b as i128;
        let s2: i128 = sum_aa as i128;
        let p: i128 = sum_ab as i128;
        proof {
            assert(0 <= s2 * count <= 0x7fff_ffff_ffff_ffff && 0 <= p * count
                <= 0x7fff_ffff_ffff_ffff && 0 <= s1 * s1 <= 0x7fff_ffff_ffff_ffff && 0 <= s1 * o1
                <= 0x7fff_ffff_ffff_ffff) by (nonlinear_arith)
                requires
                    0 <= count,
                    count * count * 65025 <= 0x7fff_ffff_ffff_ffff,
                    0 <= s1 <= count * 255,
                    0 <= o1 <= count * 255,
                    0 <= s2 <= count * 65025,
                    0 <= p <= count * 65025,
            ;
            assert(0 <= s2 * o1 <= 0x7fff_ffff_ffff_ffff * 255 && 0 <= p * s1
                <= 0x7fff_ffff_ffff_ffff * 255) by (nonlinear_arith)
                requires
                    0 <= count,
                    count * count * 65025 <= 0x7fff_ffff_ffff_ffff,
                    0 <= s1 <= count * 255,
                    0 <= o1 <= count * 255,
                    0 <= s2 <= count * 65025,
                    0 <= p <= count * 65025,
            ;
        }
        let det: i128 = s2 * count - s1 * s1;
        if det == 0 {
            return Err(FractalError::DegenerateFit);
        }
        let factor_num: i128 = p * count - s1 * o1;
        let shift_num: i128 = s2 * o1 - p * s1;
        proof {
            lemma_reduced_den_positive(factor_num as int, det as int);
        }
        let factor: Ratio = Ratio::reduce(factor_num, det);
        let rounded: i128 = round_half_away_i128(shift_num, det);
        let shift: i16 = if rounded < -32768 {
            -32768
        } else if rounded > 32767 {
            32767
        } else {
            rounded as i16
        };
        Ok(LinearCoeffs { shift, factor })
    }
}

} // verus!
