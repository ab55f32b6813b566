//! The mathematical model of a pixel matrix: a sequence of rows of 8-bit
//! samples, and the sums that the distance and fitting operations are made of.

use crate::byte_rect::SquareCoords;
use vstd::arithmetic::div_mod::{
    lemma_div_is_ordered, lemma_div_multiples_vanish, lemma_div_pos_is_pos,
    lemma_fundamental_div_mod, lemma_fundamental_div_mod_converse, lemma_mod_bound,
};
use vstd::prelude::*;

verus! {

/// A pixel matrix has at least one row, and all its rows have the same
/// non-zero length.
pub open spec fn is_matrix(g: Seq<Seq<u8>>) -> bool {
    &&& g.len() > 0
    &&& g[0].len() > 0
    &&& forall|y: int| 0 <= y < g.len() ==> (#[trigger] g[y]).len() == g[0].len()
}

/// Number of samples in a row.
pub open spec fn grid_width(g: Seq<Seq<u8>>) -> int {
    g[0].len() as int
}

/// Number of rows.
pub open spec fn grid_height(g: Seq<Seq<u8>>) -> int {
    g.len() as int
}

/// Number of samples.
pub open spec fn pixel_count(g: Seq<Seq<u8>>) -> int {
    grid_width(g) * grid_height(g)
}

/// Two matrices of the same width and the same height.
pub open spec fn same_shape(a: Seq<Seq<u8>>, b: Seq<Seq<u8>>) -> bool {
    grid_width(a) == grid_width(b) && grid_height(a) == grid_height(b)
}

/// A rectangle that holds at least one sample and lies inside the matrix.
pub open spec fn rect_in_bounds(g: Seq<Seq<u8>>, x: int, y: int, width: int, height: int) -> bool {
    &&& 0 <= x
    &&& 0 <= y
    &&& 0 < width
    &&& 0 < height
    &&& x + width <= grid_width(g)
    &&& y + height <= grid_height(g)
}

/// The `width` by `height` samples whose top left corner is at column `x` of
/// row `y`.
pub open spec fn sub_grid(g: Seq<Seq<u8>>, x: int, y: int, width: int, height: int) -> Seq<Seq<u8>> {
    Seq::new(height as nat, |j: int| Seq::new(width as nat, |i: int| g[y + j][x + i]))
}

/// A matrix of the given size with the same sample everywhere.
pub open spec fn constant_grid(width: int, height: int, value: u8) -> Seq<Seq<u8>> {
    Seq::new(height as nat, |j: int| Seq::new(width as nat, |i: int| value))
}

/// The sums of the samples of a matrix of `n` samples, and of the squares
/// of their differences, fit 64 bits.
pub open spec fn sums_in_range(n: int) -> bool {
    n * 65025 <= u64::MAX
}

/// The least multiple of `d` that is not below `n`.
pub open spec fn round_up(n: int, d: int) -> int {
    (n + d - 1) / d * d
}

/// The matrix widened and heightened to the next multiple of `d` by
/// repeating its last column and its last row.
pub open spec fn pad_grid(g: Seq<Seq<u8>>, d: int) -> Seq<Seq<u8>> {
    Seq::new(
        round_up(grid_height(g), d) as nat,
        |y: int|
            Seq::new(
                round_up(grid_width(g), d) as nat,
                |x: int|
                    g[if y < grid_height(g) {
                        y
                    } else {
                        grid_height(g) - 1
                    }][if x < grid_width(g) {
                        x
                    } else {
                        grid_width(g) - 1
                    }],
            ),
    )
}

/// The mean, cut to an integer, of the `side` by `side` samples whose top
/// left corner is at column `x` of row `y`.
pub open spec fn block_mean(g: Seq<Seq<u8>>, x: int, y: int, side: int) -> u8 {
    (table_sum(samples(sub_grid(g, x, y, side, side))) / (side * side)) as u8
}

/// The matrix made smaller `times` times in each direction: each sample is
/// the mean of a `times` by `times` block.
pub open spec fn scale_grid(g: Seq<Seq<u8>>, times: int) -> Seq<Seq<u8>> {
    Seq::new(
        (grid_height(g) / times) as nat,
        |j: int|
            Seq::new(
                (grid_width(g) / times) as nat,
                |i: int| block_mean(g, i * times, j * times, times),
            ),
    )
}

/// Width and height are whole multiples of `size`.
pub open spec fn divisible_by(g: Seq<Seq<u8>>, size: int) -> bool {
    size > 0 && grid_width(g) % size == 0 && grid_height(g) % size == 0
}

/// The number of `size` by `size` squares that tile a matrix of the given
/// width and height.
pub open spec fn chunk_count(width: int, height: int, size: int) -> int {
    (width / size) * (height / size)
}

/// The square at place `k` where a matrix of the given width is cut into
/// squares of side `size`, counted row by row from the top left.
pub open spec fn chunk_coords(width: int, size: int, k: int) -> SquareCoords {
    SquareCoords {
        x: ((k % (width / size)) * size) as usize,
        y: ((k / (width / size)) * size) as usize,
        side: size as usize,
    }
}

/// The square lies inside the matrix and is not empty.
pub open spec fn square_in_bounds(g: Seq<Seq<u8>>, sq: SquareCoords) -> bool {
    rect_in_bounds(g, sq.x as int, sq.y as int, sq.side as int, sq.side as int)
}

/// The samples of the square.
pub open spec fn square_grid(g: Seq<Seq<u8>>, sq: SquareCoords) -> Seq<Seq<u8>> {
    sub_grid(g, sq.x as int, sq.y as int, sq.side as int, sq.side as int)
}

/// `s[0] + ... + s[n - 1]`.
pub open spec fn prefix_sum(s: Seq<int>, n: int) -> int
    decreases n,
{
    if n <= 0 {
        0
    } else {
        prefix_sum(s, n - 1) + s[n - 1]
    }
}

/// The sum of all entries of the first `rows` rows.
pub open spec fn rows_sum(t: Seq<Seq<int>>, rows: int) -> int
    decreases rows,
{
    if rows <= 0 {
        0
    } else {
        rows_sum(t, rows - 1) + prefix_sum(t[rows - 1], t[rows - 1].len() as int)
    }
}

/// The sum of all entries.
pub open spec fn table_sum(t: Seq<Seq<int>>) -> int {
    rows_sum(t, t.len() as int)
}

/// The samples as integers.
pub open spec fn samples(g: Seq<Seq<u8>>) -> Seq<Seq<int>> {
    Seq::new(g.len(), |y: int| Seq::new(g[y].len(), |x: int| g[y][x] as int))
}

/// Sample by sample, the product of `a` and `b`.
pub open spec fn products(a: Seq<Seq<u8>>, b: Seq<Seq<u8>>) -> Seq<Seq<int>> {
    Seq::new(a.len(), |y: int| Seq::new(a[y].len(), |x: int| a[y][x] * b[y][x]))
}

/// Sample by sample, the square of the difference of `a` and `b`.
pub open spec fn squared_differences(a: Seq<Seq<u8>>, b: Seq<Seq<u8>>) -> Seq<Seq<int>> {
    Seq::new(
        a.len(),
        |y: int| Seq::new(a[y].len(), |x: int| (a[y][x] - b[y][x]) * (a[y][x] - b[y][x])),
    )
}

/// Every entry of the first `n` lies between `lo` and `hi`, and so the sum of
/// `n` of them lies between `n * lo` and `n * hi`.
pub proof fn lemma_prefix_sum_bounds(s: Seq<int>, n: int, lo: int, hi: int)
    requires
        0 <= n <= s.len(),
        forall|i: int| 0 <= i < n ==> lo <= #[trigger] s[i] <= hi,
    ensures
        n * lo <= prefix_sum(s, n) <= n * hi,
    decreases n,
{
    if n > 0 {
        lemma_prefix_sum_bounds(s, n - 1, lo, hi);
        assert(n * lo == (n - 1) * lo + lo) by (nonlinear_arith);
        assert(n * hi == (n - 1) * hi + hi) by (nonlinear_arith);
    } else {
        assert(n * lo == 0 && n * hi == 0) by (nonlinear_arith)
            requires
                n == 0,
        ;
    }
}

/// The sum of the first `rows` rows of a table of `width` columns whose
/// entries lie between `lo` and `hi`.
pub proof fn lemma_rows_sum_bounds(t: Seq<Seq<int>>, rows: int, width: int, lo: int, hi: int)
    requires
        0 <= rows <= t.len(),
        0 <= width,
        forall|y: int| 0 <= y < rows ==> (#[trigger] t[y]).len() == width,
        forall|y: int, x: int| 0 <= y < rows && 0 <= x < width ==> lo <= #[trigger] t[y][x] <= hi,
    ensures
        rows * width * lo <= rows_sum(t, rows) <= rows * width * hi,
    decreases rows,
{
    if rows > 0 {
        lemma_rows_sum_bounds(t, rows - 1, width, lo, hi);
        lemma_prefix_sum_bounds(t[rows - 1], width, lo, hi);
        assert(rows * width * lo == (rows - 1) * width * lo + width * lo) by (nonlinear_arith);
        assert(rows * width * hi == (rows - 1) * width * hi + width * hi) by (nonlinear_arith);
    } else {
        assert(rows * width * lo == 0 && rows * width * hi == 0) by (nonlinear_arith)
            requires
                rows == 0,
        ;
    }
}

/// The cell at column `x` of row `y` comes, row by row, before the last of
/// a table of `width` columns and `height` rows.
pub proof fn lemma_cell_bound(x: int, y: int, width: int, height: int)
    requires
        0 <= x < width,
        0 <= y < height,
    ensures
        0 <= y * width,
        y * width + x < width * height,
        y * width + width <= width * height,
        (y + 1) * width == y * width + width,
{
    assert(0 <= y * width && (y + 1) * width <= width * height && (y + 1) * width == y * width
        + width) by (nonlinear_arith)
        requires
            0 <= x < width,
            0 <= y < height,
    ;
}

/// Rounding up adds what is missing to the next multiple, and nothing to a
/// multiple.
pub proof fn lemma_round_up(n: int, d: int)
    requires
        0 <= n,
        0 < d,
    ensures
        round_up(n, d) == if n % d == 0 {
            n
        } else {
            n - n % d + d
        },
        n <= round_up(n, d) < n + d,
        round_up(n, d) % d == 0,
        round_up(n, d) / d == (n + d - 1) / d,
        0 <= n % d <= n,
{
    let q = n / d;
    let r = n % d;
    lemma_fundamental_div_mod(n, d);
    lemma_mod_bound(n, d);
    lemma_div_pos_is_pos(n, d);
    assert(0 <= d * q) by (nonlinear_arith)
        requires
            0 < d,
            0 <= q,
    ;
    if r == 0 {
        assert(n + d - 1 == q * d + (d - 1)) by (nonlinear_arith)
            requires
                n == d * q,
        ;
        lemma_fundamental_div_mod_converse(n + d - 1, d, q, d - 1);
        assert(q * d == n) by (nonlinear_arith)
            requires
                n == d * q,
        ;
    } else {
        assert(n + d - 1 == (q + 1) * d + (r - 1)) by (nonlinear_arith)
            requires
                n == d * q + r,
        ;
        lemma_fundamental_div_mod_converse(n + d - 1, d, q + 1, r - 1);
        assert((q + 1) * d == n - r + d) by (nonlinear_arith)
            requires
                n == d * q + r,
        ;
    }
    let m = (n + d - 1) / d;
    lemma_fundamental_div_mod_converse(m * d, d, m, 0);
}

/// A padded matrix is a matrix whose width and height are multiples of `d`
/// and which holds the matrix it was made from in its top left corner.
pub proof fn lemma_pad_shape(g: Seq<Seq<u8>>, d: int)
    requires
        is_matrix(g),
        0 < d,
    ensures
        is_matrix(pad_grid(g, d)),
        grid_width(pad_grid(g, d)) == round_up(grid_width(g), d),
        grid_height(pad_grid(g, d)) == round_up(grid_height(g), d),
        divisible_by(pad_grid(g, d), d),
        forall|x: int, y: int|
            0 <= x < grid_width(g) && 0 <= y < grid_height(g) ==> #[trigger] pad_grid(g, d)[y][x]
                == g[y][x],
{
    lemma_round_up(grid_width(g), d);
    lemma_round_up(grid_height(g), d);
}

/// Padding is idempotent: a padded matrix padded again to the same divisor
/// is unchanged.
pub proof fn lemma_pad_idempotent(g: Seq<Seq<u8>>, d: int)
    requires
        is_matrix(g),
        0 < d,
    ensures
        pad_grid(pad_grid(g, d), d) == pad_grid(g, d),
{
    let once = pad_grid(g, d);
    let twice = pad_grid(once, d);
    lemma_pad_shape(g, d);
    lemma_round_up(grid_width(once), d);
    lemma_round_up(grid_height(once), d);
    assert(twice.len() == once.len());
    assert forall|y: int| 0 <= y < once.len() implies #[trigger] twice[y] == once[y] by {
        assert(twice[y] =~= once[y]);
    }
    assert(twice =~= once);
}

/// The cell at column `cx` of row `cy` of a table of `nx` columns has the
/// place `cy * nx + cx`, and its column and row are found again from it.
pub proof fn lemma_place_of_cell(cx: int, cy: int, nx: int)
    requires
        0 <= cx < nx,
        0 <= cy,
    ensures
        (cy * nx + cx) % nx == cx,
        (cy * nx + cx) / nx == cy,
{
    lemma_fundamental_div_mod_converse(cy * nx + cx, nx, cy, cx);
}

/// The mean of numbers that are at most 255 is at most 255.
pub proof fn lemma_mean_bound(total: int, count: int)
    requires
        0 < count,
        0 <= total <= count * 255,
    ensures
        0 <= total / count <= 255,
{
    lemma_div_is_ordered(total, count * 255, count);
    assert(count * 255 == 255 * count) by (nonlinear_arith);
    lemma_div_multiples_vanish(255, count);
    lemma_div_pos_is_pos(total, count);
}

/// A part of a matrix is a matrix of the width and height asked for.
pub proof fn lemma_sub_grid_shape(g: Seq<Seq<u8>>, x: int, y: int, width: int, height: int)
    requires
        0 < width,
        0 < height,
    ensures
        is_matrix(sub_grid(g, x, y, width, height)),
        grid_width(sub_grid(g, x, y, width, height)) == width,
        grid_height(sub_grid(g, x, y, width, height)) == height,
{
}

/// Tables with the same entries have the same sum.
pub proof fn lemma_rows_sum_equal(s: Seq<Seq<int>>, t: Seq<Seq<int>>, rows: int)
    requires
        0 <= rows <= s.len(),
        rows <= t.len(),
        forall|y: int| 0 <= y < rows ==> (#[trigger] s[y]).len() == t[y].len(),
        forall|y: int, x: int| 0 <= y < rows && 0 <= x < s[y].len() ==> #[trigger] s[y][x] == t[y][x],
    ensures
        rows_sum(s, rows) == rows_sum(t, rows),
    decreases rows,
{
    if rows > 0 {
        lemma_rows_sum_equal(s, t, rows - 1);
        lemma_prefix_sum_equal(s[rows - 1], t[rows - 1], s[rows - 1].len() as int);
    }
}

/// A sum of entries none of which is negative is not negative, and where
/// it is zero, each of the entries is.
pub proof fn lemma_prefix_sum_of_squares(s: Seq<int>, n: int)
    requires
        0 <= n <= s.len(),
        forall|i: int| 0 <= i < n ==> 0 <= #[trigger] s[i],
    ensures
        0 <= prefix_sum(s, n),
        prefix_sum(s, n) == 0 ==> forall|i: int| 0 <= i < n ==> #[trigger] s[i] == 0,
    decreases n,
{
    if n > 0 {
        lemma_prefix_sum_of_squares(s, n - 1);
    }
}

/// A sum over a table of entries none of which is negative is not
/// negative, and where it is zero, each of the entries is.
pub proof fn lemma_rows_sum_of_squares(t: Seq<Seq<int>>, rows: int)
    requires
        0 <= rows <= t.len(),
        forall|y: int, x: int| 0 <= y < rows && 0 <= x < t[y].len() ==> 0 <= #[trigger] t[y][x],
    ensures
        0 <= rows_sum(t, rows),
        rows_sum(t, rows) == 0 ==> forall|y: int, x: int|
            0 <= y < rows && 0 <= x < t[y].len() ==> #[trigger] t[y][x] == 0,
    decreases rows,
{
    if rows > 0 {
        lemma_rows_sum_of_squares(t, rows - 1);
        let row = t[rows - 1];
        assert forall|i: int| 0 <= i < row.len() implies 0 <= #[trigger] row[i] by {
            assert(0 <= t[rows - 1][i]);
        }
        lemma_prefix_sum_of_squares(row, row.len() as int);
        if rows_sum(t, rows) == 0 {
            assert forall|y: int, x: int| 0 <= y < rows && 0 <= x < t[y].len() implies #[trigger] t[y][x]
                == 0 by {
                if y == rows - 1 {
                    assert(row[x] == 0);
                }
            }
        }
    }
}

/// A table with a one at each place of a matrix.
pub open spec fn ones(g: Seq<Seq<u8>>) -> Seq<Seq<int>> {
    Seq::new(g.len(), |y: int| Seq::new(g[y].len(), |x: int| 1int))
}

/// The sum is linear: where each of the first `n` entries of `t` is `k`
/// times that of `u` plus `s` times that of `v`, so are their sums.
pub proof fn lemma_prefix_sum_linear(t: Seq<int>, u: Seq<int>, v: Seq<int>, k: int, s: int, n: int)
    requires
        0 <= n <= t.len(),
        n <= u.len(),
        n <= v.len(),
        forall|i: int| 0 <= i < n ==> #[trigger] t[i] == k * u[i] + s * v[i],
    ensures
        prefix_sum(t, n) == k * prefix_sum(u, n) + s * prefix_sum(v, n),
    decreases n,
{
    if n > 0 {
        lemma_prefix_sum_linear(t, u, v, k, s, n - 1);
        let a = prefix_sum(u, n - 1);
        let b = prefix_sum(v, n - 1);
        assert(t[n - 1] == k * u[n - 1] + s * v[n - 1]);
        assert(k * (a + u[n - 1]) + s * (b + v[n - 1]) == (k * a + s * b) + (k * u[n - 1] + s * v[n
            - 1])) by (nonlinear_arith);
    } else {
        assert(k * 0 + s * 0 == 0);
    }
}

/// The sum is linear: where each entry of the first `rows` rows of `t` is
/// `k` times that of `u` plus `s` times that of `v`, so are their sums.
pub proof fn lemma_rows_sum_linear(
    t: Seq<Seq<int>>,
    u: Seq<Seq<int>>,
    v: Seq<Seq<int>>,
    k: int,
    s: int,
    rows: int,
)
    requires
        0 <= rows <= t.len(),
        rows <= u.len(),
        rows <= v.len(),
        forall|y: int|
            0 <= y < rows ==> (#[trigger] t[y]).len() == u[y].len() && t[y].len() == v[y].len(),
        forall|y: int, x: int|
            0 <= y < rows && 0 <= x < t[y].len() ==> #[trigger] t[y][x] == k * u[y][x] + s
                * v[y][x],
    ensures
        rows_sum(t, rows) == k * rows_sum(u, rows) + s * rows_sum(v, rows),
    decreases rows,
{
    if rows > 0 {
        lemma_rows_sum_linear(t, u, v, k, s, rows - 1);
        let y = rows - 1;
        let n = t[y].len() as int;
        assert forall|i: int| 0 <= i < n implies #[trigger] t[y][i] == k * u[y][i] + s
            * v[y][i] by {}
        lemma_prefix_sum_linear(t[y], u[y], v[y], k, s, n);
        let a = rows_sum(u, rows - 1);
        let b = rows_sum(v, rows - 1);
        let c = prefix_sum(u[y], n);
        let d = prefix_sum(v[y], n);
        assert(k * (a + c) + s * (b + d) == (k * a + s * b) + (k * c + s * d))
            by (nonlinear_arith);
    } else {
        assert(k * 0 + s * 0 == 0);
    }
}

/// Entry by entry, `k` times `u` plus `s` times `v`.
pub open spec fn combine(u: Seq<Seq<int>>, v: Seq<Seq<int>>, k: int, s: int) -> Seq<Seq<int>> {
    Seq::new(u.len(), |y: int| Seq::new(u[y].len(), |x: int| k * u[y][x] + s * v[y][x]))
}

/// Two tables with rows of the same lengths.
pub open spec fn same_layout(u: Seq<Seq<int>>, v: Seq<Seq<int>>) -> bool {
    u.len() == v.len() && forall|y: int| 0 <= y < u.len() ==> (#[trigger] u[y]).len() == v[y].len()
}

/// The sum of a combination of two tables is the combination of their
/// sums.
pub proof fn lemma_sum_of_combination(u: Seq<Seq<int>>, v: Seq<Seq<int>>, k: int, s: int)
    requires
        same_layout(u, v),
    ensures
        table_sum(combine(u, v, k, s)) == k * table_sum(u) + s * table_sum(v),
        same_layout(combine(u, v, k, s), u),
{
    lemma_rows_sum_linear(combine(u, v, k, s), u, v, k, s, u.len() as int);
}

/// Tables with the same entries have the same sum.
pub proof fn lemma_table_sum_equal(t: Seq<Seq<int>>, u: Seq<Seq<int>>)
    requires
        same_layout(t, u),
        forall|y: int, x: int| 0 <= y < t.len() && 0 <= x < t[y].len() ==> #[trigger] t[y][x] == u[y][x],
    ensures
        table_sum(t) == table_sum(u),
{
    lemma_rows_sum_equal(t, u, t.len() as int);
}

/// A matrix has as many samples as its width times its height.
pub proof fn lemma_sum_of_ones(g: Seq<Seq<u8>>)
    requires
        is_matrix(g),
    ensures
        table_sum(ones(g)) == pixel_count(g),
{
    lemma_rows_sum_bounds(ones(g), grid_height(g), grid_width(g), 1, 1);
    assert(grid_height(g) * grid_width(g) * 1 == grid_width(g) * grid_height(g))
        by (nonlinear_arith);
}

/// Sequences that agree on their first `n` entries have the same sum of them.
pub proof fn lemma_prefix_sum_equal(s: Seq<int>, t: Seq<int>, n: int)
    requires
        0 <= n <= s.len(),
        n <= t.len(),
        forall|i: int| 0 <= i < n ==> s[i] == t[i],
    ensures
        prefix_sum(s, n) == prefix_sum(t, n),
    decreases n,
{
    if n > 0 {
        lemma_prefix_sum_equal(s, t, n - 1);
    }
}

} // verus!
