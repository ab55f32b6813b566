//! Affine intensity maps: what applying one to a matrix gives, the squared
//! error between two matrices, and the least-squares fit of one matrix to
//! another.

use crate::byte_rect::{LinearCoeffs, Transform};
use crate::error::FractalError;
use crate::grid::{
    combine, grid_height, grid_width, is_matrix, lemma_rows_sum_bounds, lemma_rows_sum_equal,
    lemma_rows_sum_linear, lemma_rows_sum_of_squares, lemma_sum_of_combination,
    lemma_sum_of_ones, lemma_table_sum_equal, ones, pixel_count, products, same_shape, samples,
    squared_differences, sub_grid, table_sum,
};
use crate::ratio::{
    clamp, lemma_round_half_inward, lemma_round_of_multiple, round_half_away,
    round_half_inward, Ratio,
};
use crate::symmetry::{lemma_inverse_undoes, lemma_transform_shape, transform_grid};
use vstd::prelude::*;

verus! {

/// The sample that the map `c` makes of `v`: the exact value of
/// `v * factor + shift`, rounded to the nearest integer, a tie going toward
/// zero, and brought into `0 ..= 255`.
pub open spec fn affine_sample(v: u8, c: LinearCoeffs) -> u8 {
    clamp(
        round_half_inward(
            v * c.factor.numerator() + c.shift * c.factor.denominator(),
            c.factor.denominator(),
        ),
        0,
        255,
    ) as u8
}

/// The matrix that the map `c` makes of `g`, sample by sample.
pub open spec fn linear_grid(g: Seq<Seq<u8>>, c: LinearCoeffs) -> Seq<Seq<u8>> {
    Seq::new(g.len(), |y: int| Seq::new(g[y].len(), |x: int| affine_sample(g[y][x], c)))
}

/// The sum of the squared differences of the samples of `a` and `b`.
pub open spec fn dist_grid(a: Seq<Seq<u8>>, b: Seq<Seq<u8>>) -> int {
    table_sum(squared_differences(a, b))
}

/// How rough a matrix is: the squared error between the matrix without its
/// last row and column and the matrix without its first row and column, or
/// 1 where the matrix has fewer than two rows or columns.
pub open spec fn roughness_grid(g: Seq<Seq<u8>>) -> int {
    if grid_width(g) < 2 || grid_height(g) < 2 {
        1
    } else {
        dist_grid(
            sub_grid(g, 0, 0, grid_width(g) - 1, grid_height(g) - 1),
            sub_grid(g, 1, 1, grid_width(g) - 1, grid_height(g) - 1),
        )
    }
}

/// The sum of the samples.
pub open spec fn sample_total(a: Seq<Seq<u8>>) -> int {
    table_sum(samples(a))
}

/// The sum of the products of the samples of `a` with those of `b`.
pub open spec fn product_total(a: Seq<Seq<u8>>, b: Seq<Seq<u8>>) -> int {
    table_sum(products(a, b))
}

/// The determinant of the normal equations of a fit of `a`: the number of
/// samples times the sum of their squares, less the square of their sum. It
/// is never negative, and zero only where all samples are equal.
pub open spec fn fit_det(a: Seq<Seq<u8>>) -> int {
    product_total(a, a) * pixel_count(a) - sample_total(a) * sample_total(a)
}

/// The best factor is this number over the determinant.
pub open spec fn fit_factor_num(a: Seq<Seq<u8>>, b: Seq<Seq<u8>>) -> int {
    product_total(a, b) * pixel_count(a) - sample_total(a) * sample_total(b)
}

/// The best shift is this number over the determinant.
pub open spec fn fit_shift_num(a: Seq<Seq<u8>>, b: Seq<Seq<u8>>) -> int {
    product_total(a, a) * sample_total(b) - product_total(a, b) * sample_total(a)
}

/// The affine map that takes `a` closest to `b` in squared error: the factor
/// exactly, the shift rounded to the nearest integer and brought into 16
/// bits.
pub open spec fn fit_coeffs(a: Seq<Seq<u8>>, b: Seq<Seq<u8>>) -> LinearCoeffs {
    LinearCoeffs {
        shift: clamp(round_half_away(fit_shift_num(a, b), fit_det(a)), i16::MIN as int, i16::MAX as int) as i16,
        factor: Ratio::of(fit_factor_num(a, b), fit_det(a)),
    }
}

/// The fit of `a` to `b`, or why there is none.
pub open spec fn fit_result(a: Seq<Seq<u8>>, b: Seq<Seq<u8>>) -> Result<LinearCoeffs, FractalError> {
    if !same_shape(a, b) {
        Err(FractalError::DimensionMismatch)
    } else if fit_det(a) == 0 {
        Err(FractalError::DegenerateFit)
    } else {
        Ok(fit_coeffs(a, b))
    }
}

/// The terms of a fit over `n` samples fit 64 bits.
pub open spec fn fit_in_range(n: int) -> bool {
    n * n * 65025 <= i64::MAX
}

/// A matrix is at distance zero from itself.
pub proof fn lemma_dist_to_self(a: Seq<Seq<u8>>)
    requires
        is_matrix(a),
    ensures
        dist_grid(a, a) == 0,
{
    let t = squared_differences(a, a);
    lemma_rows_sum_bounds(t, t.len() as int, grid_width(a), 0, 0);
}

/// The distance is symmetric: from `a` to `b` it is what it is from `b` to
/// `a`, and the two have the same shape one way round as the other.
pub proof fn lemma_dist_symmetric(a: Seq<Seq<u8>>, b: Seq<Seq<u8>>)
    requires
        is_matrix(a),
        is_matrix(b),
    ensures
        same_shape(a, b) <==> same_shape(b, a),
        same_shape(a, b) ==> dist_grid(a, b) == dist_grid(b, a),
{
    if same_shape(a, b) {
        let s = squared_differences(a, b);
        let t = squared_differences(b, a);
        assert forall|y: int, x: int| 0 <= y < s.len() && 0 <= x < s[y].len() implies #[trigger] s[y][x]
            == t[y][x] by {
            let d = a[y][x] - b[y][x];
            assert(d * d == (-d) * (-d)) by (nonlinear_arith);
        }
        lemma_rows_sum_equal(s, t, s.len() as int);
    }
}

/// All samples of the matrix are equal.
pub open spec fn is_flat(a: Seq<Seq<u8>>) -> bool {
    forall|y: int, x: int|
        0 <= y < grid_height(a) && 0 <= x < grid_width(a) ==> #[trigger] a[y][x] == a[0][0]
}

/// A matrix whose samples are all equal has no fit: its determinant is
/// zero.
pub proof fn lemma_flat_has_no_fit(a: Seq<Seq<u8>>)
    requires
        is_matrix(a),
        forall|y: int, x: int|
            0 <= y < grid_height(a) && 0 <= x < grid_width(a) ==> #[trigger] a[y][x] == a[0][0],
    ensures
        fit_det(a) == 0,
{
    let v = a[0][0] as int;
    let n = pixel_count(a);
    assert forall|y: int, x: int|
        0 <= y < samples(a).len() && 0 <= x < samples(a)[y].len() implies #[trigger] samples(
        a,
    )[y][x] == v * ones(a)[y][x] + 0 * ones(a)[y][x] by {
        assert(a[y].len() == a[0].len());
        assert(a[y][x] == a[0][0]);
    }
    lemma_rows_sum_linear(samples(a), ones(a), ones(a), v, 0, grid_height(a));
    assert forall|y: int, x: int|
        0 <= y < products(a, a).len() && 0 <= x < products(a, a)[y].len() implies #[trigger] products(
        a,
        a,
    )[y][x] == (v * v) * ones(a)[y][x] + 0 * ones(a)[y][x] by {
        assert(a[y].len() == a[0].len());
        assert(a[y][x] == a[0][0]);
    }
    lemma_rows_sum_linear(products(a, a), ones(a), ones(a), v * v, 0, grid_height(a));
    lemma_sum_of_ones(a);
    assert((v * v * n) * n - (v * n) * (v * n) == 0) by (nonlinear_arith);
}

/// The number of samples times each sample, less the sum of the samples,
/// squared: the squared distance of each sample from the mean, scaled.
pub open spec fn scaled_deviations(a: Seq<Seq<u8>>) -> Seq<Seq<int>> {
    Seq::new(
        a.len(),
        |y: int|
            Seq::new(
                a[y].len(),
                |x: int|
                    (pixel_count(a) * a[y][x] - sample_total(a)) * (pixel_count(a) * a[y][x]
                        - sample_total(a)),
            ),
    )
}

/// The determinant of a fit is the scaled variance of the samples: it is
/// never negative, and it is zero only where all samples are equal.
pub proof fn lemma_det_is_variance(a: Seq<Seq<u8>>)
    requires
        is_matrix(a),
    ensures
        table_sum(scaled_deviations(a)) == pixel_count(a) * fit_det(a),
        fit_det(a) >= 0,
        fit_det(a) == 0 <==> is_flat(a),
{
    let n = pixel_count(a);
    let s1 = sample_total(a);
    let s2 = product_total(a, a);
    let t = scaled_deviations(a);
    let h = grid_height(a);
    // The squares, without their constant term.
    let u = Seq::new(
        a.len(),
        |y: int|
            Seq::new(
                a[y].len(),
                |x: int| (n * n) * products(a, a)[y][x] + (-2 * n * s1) * samples(a)[y][x],
            ),
    );
    assert forall|y: int, x: int| 0 <= y < h && 0 <= x < u[y].len() implies #[trigger] u[y][x] == (n
        * n) * products(a, a)[y][x] + (-2 * n * s1) * samples(a)[y][x] by {}
    lemma_rows_sum_linear(u, products(a, a), samples(a), n * n, -2 * n * s1, h);
    assert forall|y: int, x: int| 0 <= y < h && 0 <= x < t[y].len() implies #[trigger] t[y][x] == 1
        * u[y][x] + (s1 * s1) * ones(a)[y][x] by {
        let v = a[y][x] as int;
        assert((n * v - s1) * (n * v - s1) == (n * n) * (v * v) + (-2 * n * s1) * v + s1 * s1)
            by (nonlinear_arith);
    }
    lemma_rows_sum_linear(t, u, ones(a), 1, s1 * s1, h);
    lemma_sum_of_ones(a);
    assert(1 * ((n * n) * s2 + (-2 * n * s1) * s1) + (s1 * s1) * n == n * (s2 * n - s1 * s1))
        by (nonlinear_arith);
    // A sum of squares.
    assert forall|y: int, x: int| 0 <= y < h && 0 <= x < t[y].len() implies 0 <= #[trigger] t[y][x] by {
        let d = n * a[y][x] - s1;
        assert(0 <= d * d) by (nonlinear_arith);
    }
    lemma_rows_sum_of_squares(t, h);
    lemma_cell_count_positive(a);
    assert(fit_det(a) >= 0) by (nonlinear_arith)
        requires
            n * fit_det(a) >= 0,
            n > 0,
    ;
    if fit_det(a) == 0 {
        assert(n * fit_det(a) == 0) by (nonlinear_arith)
            requires
                fit_det(a) == 0,
        ;
        assert forall|y: int, x: int| 0 <= y < h && 0 <= x < grid_width(a) implies #[trigger] a[y][x]
            == a[0][0] by {
            assert(a[y].len() == a[0].len());
            let d = n * a[y][x] - s1;
            let e = n * a[0][0] - s1;
            assert(t[y][x] == 0);
            assert(t[0][0] == 0);
            assert(d == 0 && e == 0) by (nonlinear_arith)
                requires
                    d * d == 0,
                    e * e == 0,
            ;
            assert(a[y][x] == a[0][0]) by (nonlinear_arith)
                requires
                    n * a[y][x] == n * a[0][0],
                    n > 0,
            ;
        }
    }
    if forall|y: int, x: int|
        0 <= y < grid_height(a) && 0 <= x < grid_width(a) ==> #[trigger] a[y][x] == a[0][0] {
        lemma_flat_has_no_fit(a);
    }
}

/// A symmetry of a matrix whose samples are all equal has all its samples
/// equal.
proof fn lemma_flat_stays_flat(a: Seq<Seq<u8>>, t: Transform)
    requires
        is_matrix(a),
        is_flat(a),
    ensures
        is_flat(transform_grid(a, t)),
{
    let m = transform_grid(a, t);
    lemma_transform_shape(a, t);
    assert forall|y: int, x: int| 0 <= y < grid_height(m) && 0 <= x < grid_width(m) implies #[trigger] m[y][x]
        == a[0][0] by {
        let (cx, cy) = if t.axes_swapped() {
            (y, x)
        } else {
            (x, y)
        };
        let sx = if t.x_reversed() {
            grid_width(a) - 1 - cx
        } else {
            cx
        };
        let sy = if t.y_reversed() {
            grid_height(a) - 1 - cy
        } else {
            cy
        };
        assert(m[y][x] == a[sy][sx]);
    }
    assert(m[0][0] == a[0][0]);
}

/// A symmetry of a matrix has a fit where the matrix has one: the
/// determinant of the one is zero where that of the other is.
pub proof fn lemma_symmetry_keeps_fit(a: Seq<Seq<u8>>, t: Transform)
    requires
        is_matrix(a),
    ensures
        fit_det(transform_grid(a, t)) == 0 <==> fit_det(a) == 0,
{
    let m = transform_grid(a, t);
    lemma_transform_shape(a, t);
    lemma_det_is_variance(a);
    lemma_det_is_variance(m);
    if is_flat(a) {
        lemma_flat_stays_flat(a, t);
    }
    if is_flat(m) {
        lemma_flat_stays_flat(m, t.inverse());
        lemma_inverse_undoes(a, t);
    }
}

/// A matrix has at least one sample.
proof fn lemma_cell_count_positive(a: Seq<Seq<u8>>)
    requires
        is_matrix(a),
    ensures
        pixel_count(a) > 0,
{
    assert(grid_width(a) * grid_height(a) > 0) by (nonlinear_arith)
        requires
            grid_width(a) > 0,
            grid_height(a) > 0,
    ;
}

/// For each sample, the square of what is left between `d` times the
/// sample of `b` and `f` times the sample of `a` plus `s`: the squared
/// differences between `b` and the image of `a` under the factor `f / d`
/// and the shift `s / d`, with the denominator cleared.
pub open spec fn residual_squares(a: Seq<Seq<u8>>, b: Seq<Seq<u8>>, f: int, s: int, d: int) -> Seq<
    Seq<int>,
> {
    Seq::new(
        a.len(),
        |y: int|
            Seq::new(
                a[y].len(),
                |x: int| (d * b[y][x] - f * a[y][x] - s) * (d * b[y][x] - f * a[y][x] - s),
            ),
    )
}

/// `d` squared times the squared error that the factor `f / d` with the
/// shift `s / d` leaves between `a` and `b`.
pub open spec fn scaled_error(a: Seq<Seq<u8>>, b: Seq<Seq<u8>>, f: int, s: int, d: int) -> int {
    table_sum(residual_squares(a, b, f, s, d))
}

/// The fit is a least-squares fit: no factor `f / m` with a shift `s / m`
/// leaves a smaller squared error between `a` and `b` than the factor and
/// the shift of the fit do before the shift is rounded. The two errors are
/// compared with their denominators cleared.
pub proof fn lemma_fit_is_least_squares(a: Seq<Seq<u8>>, b: Seq<Seq<u8>>, f: int, s: int, m: int)
    requires
        is_matrix(a),
        is_matrix(b),
        same_shape(a, b),
    ensures
        m * m * scaled_error(a, b, fit_factor_num(a, b), fit_shift_num(a, b), fit_det(a))
            <= fit_det(a) * fit_det(a) * scaled_error(a, b, f, s, m),
{
    let n = pixel_count(a);
    let s1 = sample_total(a);
    let s2 = product_total(a, a);
    let o1 = sample_total(b);
    let p = product_total(a, b);
    let det = fit_det(a);
    let ff = fit_factor_num(a, b);
    let fs = fit_shift_num(a, b);
    let sa = samples(a);
    let sb = samples(b);
    let on = ones(a);
    let paa = products(a, a);
    let pab = products(a, b);
    assert forall|y: int| 0 <= y < a.len() implies (#[trigger] a[y]).len() == b[y].len() by {
        assert(a[y].len() == a[0].len());
        assert(b[y].len() == b[0].len());
    }
    lemma_sum_of_ones(a);
    // What the fit leaves of each sample, and that times the sample of `a`:
    // both sum to zero.
    let r0 = combine(sb, sa, det, -ff);
    let r = combine(r0, on, 1, -fs);
    lemma_sum_of_combination(sb, sa, det, -ff);
    lemma_sum_of_combination(r0, on, 1, -fs);
    assert(table_sum(r) == 0) by {
        assert(1 * (det * o1 + (-ff) * s1) + (-fs) * n == 0) by (nonlinear_arith)
            requires
                det == s2 * n - s1 * s1,
                ff == p * n - s1 * o1,
                fs == s2 * o1 - p * s1,
        ;
    }
    let ra0 = combine(pab, paa, det, -ff);
    let ra = combine(ra0, sa, 1, -fs);
    lemma_sum_of_combination(pab, paa, det, -ff);
    lemma_sum_of_combination(ra0, sa, 1, -fs);
    assert(table_sum(ra) == 0) by {
        assert(1 * (det * p + (-ff) * s2) + (-fs) * s1 == 0) by (nonlinear_arith)
            requires
                det == s2 * n - s1 * s1,
                ff == p * n - s1 * o1,
                fs == s2 * o1 - p * s1,
        ;
    }
    // The other map differs from the fit by a factor `ka` and a shift `kb`.
    let ka = m * ff - det * f;
    let kb = m * fs - det * s;
    let fit = residual_squares(a, b, ff, fs, det);
    let other = residual_squares(a, b, f, s, m);
    let gap = Seq::new(
        a.len(),
        |y: int| Seq::new(a[y].len(), |x: int| (ka * a[y][x] + kb) * (ka * a[y][x] + kb)),
    );
    let c0 = combine(fit, gap, m * m, 1);
    let c1 = combine(ra, r, 2 * m * ka, 2 * m * kb);
    let c = combine(c0, c1, 1, 1);
    lemma_sum_of_combination(fit, gap, m * m, 1);
    lemma_sum_of_combination(ra, r, 2 * m * ka, 2 * m * kb);
    lemma_sum_of_combination(c0, c1, 1, 1);
    assert((2 * m * ka) * 0 + (2 * m * kb) * 0 == 0);
    assert(table_sum(c) == m * m * table_sum(fit) + table_sum(gap)) by {
        assert(1 * ((m * m) * table_sum(fit) + 1 * table_sum(gap)) + 1 * 0 == m * m * table_sum(
            fit,
        ) + table_sum(gap)) by (nonlinear_arith);
    }
    // Sample by sample, the error of the other map is that combination.
    let scaled = combine(other, other, det * det, 0);
    lemma_sum_of_combination(other, other, det * det, 0);
    assert forall|y: int, x: int|
        0 <= y < scaled.len() && 0 <= x < scaled[y].len() implies #[trigger] scaled[y][x]
        == c[y][x] by {
        let va = a[y][x] as int;
        let vb = b[y][x] as int;
        let rr = det * vb - ff * va - fs;
        let e = m * vb - f * va - s;
        let g = ka * va + kb;
        assert(r0[y][x] == det * vb + (-ff) * va);
        assert(r[y][x] == 1 * r0[y][x] + (-fs) * on[y][x]);
        assert(r[y][x] == rr) by (nonlinear_arith)
            requires
                r[y][x] == 1 * (det * vb + (-ff) * va) + (-fs) * 1,
                rr == det * vb - ff * va - fs,
        ;
        assert(ra0[y][x] == det * (va * vb) + (-ff) * (va * va));
        assert(ra[y][x] == 1 * ra0[y][x] + (-fs) * sa[y][x]);
        assert(ra[y][x] == rr * va) by (nonlinear_arith)
            requires
                ra[y][x] == 1 * (det * (va * vb) + (-ff) * (va * va)) + (-fs) * va,
                rr == det * vb - ff * va - fs,
        ;
        assert(det * e == det * (m * vb) - det * (f * va) - det * s) by (nonlinear_arith)
            requires
                e == m * vb - f * va - s,
        ;
        assert(m * rr == m * (det * vb) - m * (ff * va) - m * fs) by (nonlinear_arith)
            requires
                rr == det * vb - ff * va - fs,
        ;
        assert(g == m * (ff * va) - det * (f * va) + m * fs - det * s) by (nonlinear_arith)
            requires
                g == (m * ff - det * f) * va + (m * fs - det * s),
        ;
        assert(det * (m * vb) == m * (det * vb)) by (nonlinear_arith);
        assert(det * e == m * rr + g);
        assert((det * det) * (e * e) == (det * e) * (det * e)) by (nonlinear_arith);
        let u = m * rr;
        assert((u + g) * (u + g) == u * u + g * g + 2 * (u * g)) by (nonlinear_arith);
        assert(u * u == (m * m) * (rr * rr)) by (nonlinear_arith)
            requires
                u == m * rr,
        ;
        assert(u * g == (m * ka) * (rr * va) + (m * kb) * rr) by (nonlinear_arith)
            requires
                u == m * rr,
                g == ka * va + kb,
        ;
        assert(2 * ((m * ka) * (rr * va) + (m * kb) * rr) == (2 * m * ka) * (rr * va) + (2 * m
            * kb) * rr) by (nonlinear_arith);
        assert(other[y][x] == e * e);
        assert(fit[y][x] == rr * rr);
        assert(gap[y][x] == g * g);
        assert(c[y][x] == 1 * ((m * m) * fit[y][x] + 1 * gap[y][x]) + 1 * ((2 * m * ka)
            * ra[y][x] + (2 * m * kb) * r[y][x]));
        assert(scaled[y][x] == (det * det) * other[y][x] + 0 * other[y][x]);
    }
    lemma_table_sum_equal(scaled, c);
    assert forall|y: int, x: int| 0 <= y < gap.len() && 0 <= x < gap[y].len() implies 0
        <= #[trigger] gap[y][x] by {
        let g = ka * a[y][x] + kb;
        assert(0 <= g * g) by (nonlinear_arith);
    }
    lemma_rows_sum_of_squares(gap, gap.len() as int);
    assert((det * det) * table_sum(other) + 0 * table_sum(other) == det * det * table_sum(other))
        by (nonlinear_arith);
}

/// A factor that takes a matrix with two different samples to a matrix of
/// samples is at most 255 in magnitude.
proof fn lemma_factor_is_small(a: Seq<Seq<u8>>, b: Seq<Seq<u8>>, k: int, s: int)
    requires
        is_matrix(a),
        is_matrix(b),
        same_shape(a, b),
        fit_det(a) != 0,
        forall|y: int, x: int|
            0 <= y < grid_height(a) && 0 <= x < grid_width(a) ==> #[trigger] b[y][x] == k
                * a[y][x] + s,
    ensures
        -255 <= k <= 255,
{
    if forall|y: int, x: int|
        0 <= y < grid_height(a) && 0 <= x < grid_width(a) ==> #[trigger] a[y][x] == a[0][0] {
        lemma_flat_has_no_fit(a);
    } else {
        let (y, x) = choose|y: int, x: int|
            0 <= y < grid_height(a) && 0 <= x < grid_width(a) && #[trigger] a[y][x] != a[0][0];
        let d = a[y][x] - a[0][0];
        let e = b[y][x] - b[0][0];
        assert(b[y].len() == b[0].len());
        assert(b[y][x] == k * a[y][x] + s);
        assert(b[0][0] == k * a[0][0] + s);
        assert(e == k * d) by (nonlinear_arith)
            requires
                e == (k * a[y][x] + s) - (k * a[0][0] + s),
                d == a[y][x] - a[0][0],
        ;
        assert(-255 <= k <= 255) by (nonlinear_arith)
            requires
                e == k * d,
                d != 0,
                -255 <= e <= 255,
        ;
    }
}

/// Where each sample of `b` is `k` times the sample of `a` at its place
/// plus `s`, where the samples of `a` are not all equal and `s` fits 16
/// bits, the fit of `a` to `b` is the factor `k` with the shift `s`, and it
/// takes `a` to `b` exactly.
pub proof fn lemma_fit_of_affine_image(a: Seq<Seq<u8>>, b: Seq<Seq<u8>>, k: int, s: int)
    requires
        is_matrix(a),
        is_matrix(b),
        same_shape(a, b),
        fit_det(a) != 0,
        i16::MIN <= s <= i16::MAX,
        forall|y: int, x: int|
            0 <= y < grid_height(a) && 0 <= x < grid_width(a) ==> #[trigger] b[y][x] == k
                * a[y][x] + s,
    ensures
        fit_result(a, b) == Ok::<LinearCoeffs, FractalError>(
            LinearCoeffs { shift: s as i16, factor: Ratio::of(k, 1) },
        ),
        linear_grid(a, fit_coeffs(a, b)) == b,
{
    let n = pixel_count(a);
    let s1 = sample_total(a);
    let s2 = product_total(a, a);
    let o1 = sample_total(b);
    let p = product_total(a, b);
    let det = fit_det(a);
    // The sums over `b` in terms of the sums over `a`.
    assert forall|y: int| 0 <= y < grid_height(a) implies (#[trigger] a[y]).len() == b[y].len() by {
        assert(a[y].len() == a[0].len());
        assert(b[y].len() == b[0].len());
    }
    assert forall|y: int, x: int|
        0 <= y < samples(b).len() && 0 <= x < samples(b)[y].len() implies #[trigger] samples(
        b,
    )[y][x] == k * samples(a)[y][x] + s * ones(a)[y][x] by {
        assert(b[y][x] == k * a[y][x] + s);
    }
    lemma_rows_sum_linear(samples(b), samples(a), ones(a), k, s, grid_height(a));
    lemma_sum_of_ones(a);
    assert(o1 == k * s1 + s * n);
    assert forall|y: int, x: int|
        0 <= y < products(a, b).len() && 0 <= x < products(a, b)[y].len() implies #[trigger] products(
        a,
        b,
    )[y][x] == k * products(a, a)[y][x] + s * samples(a)[y][x] by {
        let v = a[y][x] as int;
        let w = b[y][x] as int;
        assert(w == k * v + s);
        assert(v * w == k * (v * v) + s * v) by (nonlinear_arith)
            requires
                w == k * v + s,
        ;
    }
    lemma_rows_sum_linear(products(a, b), products(a, a), samples(a), k, s, grid_height(a));
    assert(p == k * s2 + s * s1);
    // Both numerators are multiples of the determinant.
    assert(p * n == k * (s2 * n) + s * (s1 * n)) by (nonlinear_arith)
        requires
            p == k * s2 + s * s1,
    ;
    assert(s1 * o1 == k * (s1 * s1) + s * (s1 * n)) by (nonlinear_arith)
        requires
            o1 == k * s1 + s * n,
    ;
    assert(k * det == k * (s2 * n) - k * (s1 * s1)) by (nonlinear_arith)
        requires
            det == s2 * n - s1 * s1,
    ;
    assert(s2 * o1 == k * (s1 * s2) + s * (s2 * n)) by (nonlinear_arith)
        requires
            o1 == k * s1 + s * n,
    ;
    assert(p * s1 == k * (s1 * s2) + s * (s1 * s1)) by (nonlinear_arith)
        requires
            p == k * s2 + s * s1,
    ;
    assert(s * det == s * (s2 * n) - s * (s1 * s1)) by (nonlinear_arith)
        requires
            det == s2 * n - s1 * s1,
    ;
    assert(fit_factor_num(a, b) == k * det);
    assert(fit_shift_num(a, b) == s * det);
    Ratio::lemma_of_multiple(k, det);
    lemma_round_of_multiple(s, det);
    let c = fit_coeffs(a, b);
    assert(c.shift == s);
    assert(c.factor == Ratio::of(k, 1));
    // The fit takes each sample of `a` to the sample of `b` at its place.
    assert(Ratio::representable(k, 1)) by {
        // Two samples of `a` differ, so `k` times their difference is at most 255.
        lemma_factor_is_small(a, b, k, s);
    }
    Ratio::lemma_terms_of(k, 1);
    let image = linear_grid(a, c);
    assert forall|y: int| 0 <= y < grid_height(a) implies #[trigger] image[y] == b[y] by {
        assert forall|x: int| 0 <= x < a[y].len() implies image[y][x] == b[y][x] by {
            assert(a[y].len() == a[0].len());
            assert(b[y][x] == k * a[y][x] + s);
            assert(a[y][x] * k + s * 1 == k * a[y][x] + s) by (nonlinear_arith);
            lemma_round_half_inward(k * a[y][x] + s, 1);
        }
        assert(image[y] =~= b[y]);
    }
    assert(image =~= b);
}

/// A matrix whose fit is in range has fewer than 2^24 samples.
pub proof fn lemma_fit_in_range_count(n: int)
    requires
        0 <= n,
        fit_in_range(n),
    ensures
        n < 0x100_0000,
        n * 65025 <= u64::MAX,
{
    assert(n < 0x100_0000) by (nonlinear_arith)
        requires
            0 <= n,
            n * n * 65025 <= 0x7fff_ffff_ffff_ffff,
    ;
}

} // verus!
