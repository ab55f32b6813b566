//! The block matcher, the compressor and the decompressor.

use crate::affine::{fit_in_range, lemma_fit_in_range_count, roughness_grid};
use crate::attractor::{
    block_of, decoded, in_square, is_decompress_result, iterate, lemma_block_shape,
    lemma_iterate_shape, lemma_round_prefix_shape, mapping_divides, mapping_fits, paste,
    round_grid, round_prefix, square_fits, table_fits, SEED_SAMPLE,
};
use crate::byte_rect::{copy_rect, shrink, ByteRect, LinearCoeffs, SquareCoords, Transform};
use crate::encoding::{
    active_pool, domain_block, domain_count, domain_key, domain_ranking, encodes,
    is_compress_result, is_table_result, lemma_block_shapes, lemma_compressed_is_decodable,
    lemma_divisible_by_divisor, lemma_pool_failure, lemma_pool_fits, lemma_pool_shapes,
    lemma_scale_shape, lemma_sizes, lemma_some_chunk, pool_size, sizes_valid,
    some_block_is_flat, target_block, target_count,
};
use crate::error::FractalError;
use crate::grid::{
    chunk_coords, constant_grid, divisible_by, grid_height, grid_width, is_matrix,
    lemma_cell_bound, lemma_pad_shape, lemma_sub_grid_shape, pixel_count, round_up,
    square_grid, sums_in_range,
};
use crate::ranking::{
    is_ranking, key_of, lemma_ranking_by_equal_keys, lemma_ranking_is_unique, rank_by_key,
};
use crate::search::{
    candidate, is_closest, is_search_result, lemma_search_done, lemma_search_failed,
    lemma_search_step, pool_grids, pool_of_matrices, searched,
};
use crate::symmetry::lemma_transform_shape;
use vstd::arithmetic::div_mod::lemma_fundamental_div_mod;
use vstd::prelude::*;

verus! {

/// One entry of a mapping table: the target square `small` is made from
/// the domain square `big`, brought down to its size, by the symmetry
/// `trans` and the affine map `coeffs`.
#[derive(Debug, PartialEq, Clone, Copy)]
pub struct SquareMapping {
    pub small: SquareCoords,
    pub big: SquareCoords,
    pub trans: Transform,
    pub coeffs: LinearCoeffs,
}

/// A compressed image: the size of the image, its size after padding, and
/// one mapping for each target block.
#[derive(Debug, PartialEq, Clone)]
pub struct Compressed {
    pub orig_width: usize,
    pub orig_height: usize,
    pub padded_width: usize,
    pub padded_height: usize,
    pub mapping: Vec<SquareMapping>,
}

/// How to compress: the side of the domain blocks, the side of the target
/// blocks, which divides it, and the factor by which the pool of domain
/// blocks is cut down.
#[derive(Debug, PartialEq, Eq, Clone, Copy)]
pub struct CompSettings {
    pub big_square_size: usize,
    pub small_square_size: usize,
    pub grouping_factor: usize,
}

/// How to decompress: the number of rounds.
#[derive(Debug, PartialEq, Eq, Clone, Copy)]
pub struct DecompSettings {
    pub iterations: usize,
}

/// Searches the whole pool, each entry under each of the eight symmetries,
/// for the candidate whose best affine fit comes closest to `desired`. It
/// returns the index of the entry, the symmetry and the fit; of several
/// that come equally close, the first in the order of the search.
///
/// An empty pool is refused with `EmptyCandidatePool`. A candidate without
/// a fit ends the search: the first of them in the order of the search
/// gives its error, `DimensionMismatch` where it has another shape than
/// `desired`, `DegenerateFit` where all its samples are equal.
pub fn find_closest_square<R: ByteRect>(squares: &[R], desired: &R) -> (r: Result<
    (usize, Transform, LinearCoeffs),
    FractalError,
>)
    requires
        pool_of_matrices(pool_grids(squares@)),
        is_matrix(desired.grid()),
        fit_in_range(pixel_count(desired.grid())),
    ensures
        is_search_result(pool_grids(squares@), desired.grid(), r),
{
    let ghost pool = pool_grids(squares@);
    let ghost target = desired.grid();
    let count: usize = squares.len();
    if count == 0 {
        return Err(FractalError::EmptyCandidatePool);
    }
    let width: usize = desired.width();
    let height: usize = desired.height();
    proof {
        lemma_cell_bound(0, 0, width as int, height as int);
        lemma_fit_in_range_count(pixel_count(target));
    }
    let mut best: Option<(usize, Transform, LinearCoeffs, u64)> = None;
    let mut i: usize = 0;
    while i < count
        invariant
            pool == pool_grids(squares@),
            target == desired.grid(),
            count == squares@.len(),
            count > 0,
            pool_of_matrices(pool),
            is_matrix(target),
            fit_in_range(pixel_count(target)),
            sums_in_range(pixel_count(target)),
            width == grid_width(target),
            height == grid_height(target),
            i <= count,
            searched(pool, target, i * 8, best),
        decreases count - i,
    {
        let mut k: usize = 0;
        while k < 8
            invariant
                pool == pool_grids(squares@),
                target == desired.grid(),
                count == squares@.len(),
                pool_of_matrices(pool),
                is_matrix(target),
                fit_in_range(pixel_count(target)),
                sums_in_range(pixel_count(target)),
                width == grid_width(target),
                height == grid_height(target),
                i < count,
                k <= 8,
                searched(pool, target, i * 8 + k, best),
            decreases 8 - k,
        {
            let t: Transform = Transform::from_index(k);
            assert(pool[i as int] == squares@[i as int].grid());
            assert(is_matrix(pool[i as int]));
            let turned: R = squares[i].transform(t);
            proof {
                lemma_transform_shape(pool[i as int], t);
                assert(turned.grid() == candidate(pool, i as int, t));
            }
            if turned.width() != width || turned.height() != height {
                proof {
                    lemma_search_failed(
                        pool,
                        target,
                        i as int,
                        t,
                        FractalError::DimensionMismatch,
                        best,
                    );
                }
                return Err(FractalError::DimensionMismatch);
            }
            let ghost before = best;
            match turned.best_coeffs_to_match(desired) {
                Ok(c) => {
                    let approx: R = turned.linear(c);
                    match desired.dist(&approx) {
                        Ok(e) => {
                            let better: bool = match best {
                                None => true,
                                Some((_, _, _, least)) => e < least,
                            };
                            if better {
                                best = Some((i, t, c, e));
                            }
                        },
                        Err(e) => {
                            return Err(e);
                        },
                    }
                    proof {
                        lemma_search_step(pool, target, i as int, t, c, before, best);
                    }
                },
                Err(e) => {
                    proof {
                        lemma_search_failed(pool, target, i as int, t, e, best);
                    }
                    return Err(e);
                },
            }
            k = k + 1;
        }
        i = i + 1;
    }
    match best {
        Some((index, t, c, e)) => {
            proof {
                lemma_search_done(pool, target, index, t, c, e);
            }
            Ok((index, t, c))
        },
        None => {
            // Not reached: the pool is not empty, so a candidate was weighed.
            Err(FractalError::EmptyCandidatePool)
        },
    }
}

/// The view of what the mapping of a padded matrix returned.
pub open spec fn table_view(r: Result<Vec<SquareMapping>, FractalError>) -> Result<
    Seq<SquareMapping>,
    FractalError,
> {
    match r {
        Ok(table) => Ok(table@),
        Err(e) => Err(e),
    }
}

/// The mapping table of a padded matrix: the matrix is cut into domain
/// blocks of side `big_grid_size` and into target blocks of side
/// `small_grid_size`; the domain blocks are brought down to the size of the
/// target blocks and ranked by roughness; the smoothest of them, one in
/// `group_count`, are searched for each target block.
pub fn get_closest_chunk_mapping<R: ByteRect>(
    padded: &R,
    big_grid_size: usize,
    small_grid_size: usize,
    group_count: usize,
) -> (r: Result<Vec<SquareMapping>, FractalError>)
    requires
        is_matrix(padded.grid()),
        sums_in_range(pixel_count(padded.grid())),
        fit_in_range(small_grid_size * small_grid_size),
    ensures
        is_table_result(
            padded.grid(),
            big_grid_size as int,
            small_grid_size as int,
            group_count as int,
            table_view(r),
        ),
{
    let ghost g = padded.grid();
    let ghost big = big_grid_size as int;
    let ghost small = small_grid_size as int;
    let ghost grouping = group_count as int;
    if small_grid_size == 0 || big_grid_size == 0 || big_grid_size % small_grid_size != 0 {
        return Err(FractalError::NotDivisible);
    }
    let width: usize = padded.width();
    let height: usize = padded.height();
    let big_grid: Vec<(SquareCoords, R)> = match padded.to_square_chunks(big_grid_size) {
        Ok(chunks) => chunks,
        Err(e) => {
            return Err(e);
        },
    };
    proof {
        lemma_divisible_by_divisor(g, big, small);
        lemma_sizes(big, small);
    }
    let small_grid: Vec<(SquareCoords, R)> = match padded.to_square_chunks(small_grid_size) {
        Ok(chunks) => chunks,
        Err(e) => {
            return Err(e);
        },
    };
    let times: usize = big_grid_size / small_grid_size;
    let count: usize = big_grid.len();
    proof {
        lemma_fundamental_div_mod(width as int, big);
        lemma_fundamental_div_mod(height as int, big);
        assert(big * big <= width * height && small * small <= width * height) by (nonlinear_arith)
            requires
                width == big * (width as int / big),
                height == big * (height as int / big),
                width > 0,
                height > 0,
                0 < small <= big,
        ;
    }
    let mut keys: Vec<u64> = Vec::new();
    let mut i: usize = 0;
    while i < count
        invariant
            g == padded.grid(),
            big == big_grid_size,
            small == small_grid_size,
            sizes_valid(big, small),
            times == big / small,
            width == grid_width(g),
            sums_in_range(big * big),
            sums_in_range(small * small),
            count == big_grid@.len(),
            forall|k: int|
                0 <= k < count ==> {
                    &&& (#[trigger] big_grid@[k]).0 == chunk_coords(width as int, big, k)
                    &&& big_grid@[k].1.grid() == square_grid(g, big_grid@[k].0)
                },
            i <= count,
            keys@.len() == i,
            forall|b: int|
                0 <= b < i ==> #[trigger] keys@[b] == roughness_grid(domain_block(g, big, small, b)),
        decreases count - i,
    {
        proof {
            lemma_block_shapes(g, big, small, i as int);
            assert(big_grid@[i as int].1.grid() == square_grid(
                g,
                chunk_coords(width as int, big, i as int),
            ));
        }
        match big_grid[i].1.scale_down(times) {
            Ok(scaled) => {
                keys.push(scaled.roughness());
            },
            Err(e) => {
                return Err(e);
            },
        }
        i = i + 1;
    }
    if group_count == 0 {
        return Err(FractalError::EmptyCandidatePool);
    }
    let size: usize = count / group_count;
    if size == 0 {
        return Err(FractalError::EmptyCandidatePool);
    }
    let order: Vec<usize> = rank_by_key(&keys);
    proof {
        lemma_ranking_by_equal_keys(
            count as int,
            key_of(keys@),
            domain_key(g, big, small),
            order@,
        );
        lemma_ranking_is_unique(count as int, domain_key(g, big, small), order@);
        assert(order@ == domain_ranking(g, big, small));
        lemma_fundamental_div_mod(count as int, grouping);
        assert(size <= count) by (nonlinear_arith)
            requires
                count == grouping * size + (count as int) % grouping,
                0 <= (count as int) % grouping,
                grouping >= 1,
                size >= 0,
        ;
    }
    let mut pool: Vec<R> = Vec::new();
    let mut a: usize = 0;
    while a < size
        invariant
            g == padded.grid(),
            big == big_grid_size,
            small == small_grid_size,
            sizes_valid(big, small),
            times == big / small,
            width == grid_width(g),
            sums_in_range(big * big),
            count == big_grid@.len(),
            forall|k: int|
                0 <= k < count ==> {
                    &&& (#[trigger] big_grid@[k]).0 == chunk_coords(width as int, big, k)
                    &&& big_grid@[k].1.grid() == square_grid(g, big_grid@[k].0)
                },
            is_ranking(count as int, domain_key(g, big, small), order@),
            size <= count,
            a <= size,
            pool@.len() == a,
            forall|b: int|
                0 <= b < a ==> (#[trigger] pool@[b]).grid() == domain_block(
                    g,
                    big,
                    small,
                    order@[b] as int,
                ),
        decreases size - a,
    {
        let index: usize = order[a];
        proof {
            lemma_block_shapes(g, big, small, index as int);
            assert(big_grid@[index as int].1.grid() == square_grid(
                g,
                chunk_coords(width as int, big, index as int),
            ));
        }
        match big_grid[index].1.scale_down(times) {
            Ok(scaled) => {
                pool.push(scaled);
            },
            Err(e) => {
                return Err(e);
            },
        }
        a = a + 1;
    }
    let ghost candidates = active_pool(g, big, small, grouping);
    assert(pool_grids(pool@) =~= candidates);
    let targets: usize = small_grid.len();
    let mut table: Vec<SquareMapping> = Vec::new();
    let mut j: usize = 0;
    while j < targets
        invariant
            g == padded.grid(),
            big == big_grid_size,
            small == small_grid_size,
            grouping == group_count,
            sizes_valid(big, small),
            divisible_by(g, big),
            grouping > 0,
            width == grid_width(g),
            fit_in_range(small * small),
            count == big_grid@.len(),
            count == domain_count(g, big),
            forall|k: int|
                0 <= k < count ==> {
                    &&& (#[trigger] big_grid@[k]).0 == chunk_coords(width as int, big, k)
                    &&& big_grid@[k].1.grid() == square_grid(g, big_grid@[k].0)
                },
            targets == small_grid@.len(),
            targets == target_count(g, small),
            forall|k: int|
                0 <= k < targets ==> {
                    &&& (#[trigger] small_grid@[k]).0 == chunk_coords(width as int, small, k)
                    &&& small_grid@[k].1.grid() == square_grid(g, small_grid@[k].0)
                },
            is_ranking(count as int, domain_key(g, big, small), order@),
            order@ == domain_ranking(g, big, small),
            size == pool_size(g, big, grouping),
            0 < size <= count,
            pool@.len() == size,
            candidates == active_pool(g, big, small, grouping),
            pool_grids(pool@) == candidates,
            j <= targets,
            table@.len() == j,
            forall|b: int| 0 <= b < j ==> encodes(#[trigger] table@[b], g, big, small, grouping, b),
            j > 0 ==> !some_block_is_flat(g, big, small, grouping),
        decreases targets - j,
    {
        proof {
            lemma_pool_shapes(g, big, small, grouping, j as int);
            lemma_block_shapes(g, big, small, j as int);
            assert(small_grid@[j as int].1.grid() == target_block(g, small, j as int));
        }
        match find_closest_square(pool.as_slice(), &small_grid[j].1) {
            Ok((index, trans, coeffs)) => {
                let mapping = SquareMapping {
                    small: small_grid[j].0,
                    big: big_grid[order[index]].0,
                    trans,
                    coeffs,
                };
                proof {
                    lemma_pool_fits(g, big, small, grouping, j as int);
                    // The candidate that was found is the witness.
                    assert(is_closest(
                        active_pool(g, big, small, grouping),
                        target_block(g, small, j as int),
                        index as int,
                        mapping.trans,
                        mapping.coeffs,
                    ));
                    assert(mapping.big == chunk_coords(
                        grid_width(g),
                        big,
                        domain_ranking(g, big, small)[index as int] as int,
                    ));
                }
                table.push(mapping);
            },
            Err(e) => {
                proof {
                    lemma_pool_failure(g, big, small, grouping, j as int, e);
                }
                return Err(e);
            },
        }
        j = j + 1;
    }
    proof {
        lemma_divisible_by_divisor(g, big, small);
        lemma_some_chunk(g, small);
    }
    Ok(table)
}

/// Compresses `image`: pads it to a multiple of the side of the domain
/// blocks and maps each target block of the padded image to the closest
/// candidate among its smoothest domain blocks.
///
/// The result holds one mapping for each target block. There is none where
/// the block sizes are not valid (`NotDivisible`), where the grouping factor
/// leaves no domain block (`EmptyCandidatePool`), or where all samples of
/// some block of the pool are equal (`DegenerateFit`).
pub fn compress(image: &Vec<Vec<u8>>, settings: CompSettings) -> (r: Result<Compressed, FractalError>)
    requires
        is_matrix(image.grid()),
        round_up(grid_width(image.grid()), settings.big_square_size as int) <= usize::MAX,
        round_up(grid_height(image.grid()), settings.big_square_size as int) <= usize::MAX,
        sums_in_range(
            round_up(grid_width(image.grid()), settings.big_square_size as int) * round_up(
                grid_height(image.grid()),
                settings.big_square_size as int,
            ),
        ),
        fit_in_range(settings.small_square_size * settings.small_square_size),
    ensures
        is_compress_result(image.grid(), settings, r),
        r matches Ok(c) ==> c.mapping@.len() == (c.padded_width as int / settings.small_square_size
            as int) * (c.padded_height as int / settings.small_square_size as int),
{
    let padded: Vec<Vec<u8>> = match image.pad_to_divisible_by(settings.big_square_size) {
        Ok(padded) => padded,
        Err(e) => {
            return Err(e);
        },
    };
    proof {
        lemma_pad_shape(image.grid(), settings.big_square_size as int);
    }
    let mapping: Vec<SquareMapping> = match get_closest_chunk_mapping(
        &padded,
        settings.big_square_size,
        settings.small_square_size,
        settings.grouping_factor,
    ) {
        Ok(mapping) => mapping,
        Err(e) => {
            return Err(e);
        },
    };
    Ok(
        Compressed {
            orig_width: image.width(),
            orig_height: image.height(),
            padded_width: padded.width(),
            padded_height: padded.height(),
            mapping,
        },
    )
}

/// Whether the square is not empty and lies inside a matrix of the given
/// size.
fn square_is_inside(width: usize, height: usize, sq: SquareCoords) -> (r: bool)
    ensures
        r == square_fits(width as int, height as int, sq),
{
    sq.side > 0 && sq.side <= width && sq.x <= width - sq.side && sq.side <= height && sq.y
        <= height - sq.side
}

/// Writes `value` at column `x` of row `y`.
fn set_sample(canvas: &mut Vec<Vec<u8>>, x: usize, y: usize, value: u8)
    requires
        y < old(canvas)@.len(),
        x < old(canvas)@[y as int]@.len(),
    ensures
        final(canvas).grid() == old(canvas).grid().update(
            y as int,
            old(canvas).grid()[y as int].update(x as int, value),
        ),
{
    canvas[y][x] = value;
    assert(canvas.grid() =~= old(canvas).grid().update(
        y as int,
        old(canvas).grid()[y as int].update(x as int, value),
    ));
}

/// What `paste_block` has written when it is at column `i` of row `j` of
/// the block: the rows above, and the samples to the left in that row.
spec fn partly_pasted(
    canvas: Seq<Seq<u8>>,
    sq: SquareCoords,
    block: Seq<Seq<u8>>,
    j: int,
    i: int,
    x: int,
    y: int,
) -> u8 {
    if in_square(sq, x, y) && (y - sq.y < j || (y - sq.y == j && x - sq.x < i)) {
        block[y - sq.y][x - sq.x]
    } else {
        canvas[y][x]
    }
}

/// Writes the samples of `block` over the square `sq` of the canvas.
fn paste_block(canvas: &mut Vec<Vec<u8>>, sq: SquareCoords, block: &Vec<Vec<u8>>)
    requires
        is_matrix(old(canvas).grid()),
        square_fits(grid_width(old(canvas).grid()), grid_height(old(canvas).grid()), sq),
        is_matrix(block.grid()),
        grid_width(block.grid()) == sq.side,
        grid_height(block.grid()) == sq.side,
    ensures
        final(canvas).grid() == paste(old(canvas).grid(), sq, block.grid()),
{
    let ghost before = canvas.grid();
    let width: usize = canvas[0].len();
    let height: usize = canvas.len();
    let mut j: usize = 0;
    while j < sq.side
        invariant
            is_matrix(before),
            width == grid_width(before),
            height == grid_height(before),
            square_fits(width as int, height as int, sq),
            is_matrix(block.grid()),
            grid_width(block.grid()) == sq.side,
            grid_height(block.grid()) == sq.side,
            j <= sq.side,
            canvas.grid().len() == height,
            forall|y: int| 0 <= y < height ==> (#[trigger] canvas.grid()[y]).len() == width,
            forall|x: int, y: int|
                0 <= y < height && 0 <= x < width ==> #[trigger] canvas.grid()[y][x]
                    == partly_pasted(before, sq, block.grid(), j as int, 0, x, y),
        decreases sq.side - j,
    {
        let mut i: usize = 0;
        while i < sq.side
            invariant
                is_matrix(before),
                width == grid_width(before),
                height == grid_height(before),
                square_fits(width as int, height as int, sq),
                is_matrix(block.grid()),
                grid_width(block.grid()) == sq.side,
                grid_height(block.grid()) == sq.side,
                j < sq.side,
                i <= sq.side,
                canvas.grid().len() == height,
                forall|y: int| 0 <= y < height ==> (#[trigger] canvas.grid()[y]).len() == width,
                forall|x: int, y: int|
                    0 <= y < height && 0 <= x < width ==> #[trigger] canvas.grid()[y][x]
                        == partly_pasted(before, sq, block.grid(), j as int, i as int, x, y),
            decreases sq.side - i,
        {
            assert(block.grid()[j as int].len() == sq.side);
            assert(canvas.grid()[sq.y + j].len() == width);
            let value: u8 = block[j][i];
            set_sample(canvas, sq.x + i, sq.y + j, value);
            i = i + 1;
        }
        j = j + 1;
    }
    proof {
        let after = canvas.grid();
        let wanted = paste(before, sq, block.grid());
        assert forall|y: int| 0 <= y < height implies #[trigger] after[y] == wanted[y] by {
            assert(before[y].len() == width);
            assert(after[y] =~= wanted[y]);
        }
        assert(after =~= wanted);
    }
}

/// One round: each mapping of the table makes its block from `image` and
/// writes it to its target square of a copy of `image`.
pub fn apply_square_mapping(image: &Vec<Vec<u8>>, mapping: &Vec<SquareMapping>) -> (r: Vec<Vec<u8>>)
    requires
        is_matrix(image.grid()),
        table_fits(grid_width(image.grid()), grid_height(image.grid()), mapping@),
        sums_in_range(pixel_count(image.grid())),
    ensures
        r.grid() == round_grid(image.grid(), mapping@),
{
    let width: usize = image.width();
    let height: usize = image.height();
    let ghost source = image.grid();
    let mut result: Vec<Vec<u8>> = copy_rect(image, 0, 0, width, height);
    assert(result.grid() =~= source) by {
        assert forall|y: int| 0 <= y < height implies #[trigger] result.grid()[y] == source[y] by {
            assert(source[y].len() == width);
            assert(result.grid()[y] =~= source[y]);
        }
    }
    let count: usize = mapping.len();
    let mut k: usize = 0;
    while k < count
        invariant
            source == image.grid(),
            is_matrix(source),
            width == grid_width(source),
            height == grid_height(source),
            table_fits(width as int, height as int, mapping@),
            sums_in_range(pixel_count(source)),
            count == mapping@.len(),
            k <= count,
            result.grid() == round_prefix(source, mapping@, k as int),
        decreases count - k,
    {
        let m: SquareMapping = mapping[k];
        proof {
            lemma_block_shape(source, m);
            lemma_round_prefix_shape(source, mapping@, k as int);
            lemma_sub_grid_shape(
                source,
                m.big.x as int,
                m.big.y as int,
                m.big.side as int,
                m.big.side as int,
            );
            assert(m.big.side * m.big.side <= width * height) by (nonlinear_arith)
                requires
                    0 < m.big.side <= width,
                    m.big.side <= height,
            ;
        }
        let domain: Vec<Vec<u8>> = copy_rect(image, m.big.x, m.big.y, m.big.side, m.big.side);
        let scaled: Vec<Vec<u8>> = shrink(&domain, m.big.side / m.small.side);
        proof {
            lemma_scale_shape(
                domain.grid(),
                m.big.side as int / m.small.side as int,
            );
            lemma_transform_shape(scaled.grid(), m.trans);
        }
        let block: Vec<Vec<u8>> = scaled.transform(m.trans).linear(m.coeffs);
        assert(block.grid() == block_of(source, m));
        paste_block(&mut result, m.small, &block);
        k = k + 1;
    }
    result
}

/// `depth` rounds, each applied to what the round before it left.
pub fn apply_square_mapping_rec(image: &Vec<Vec<u8>>, mapping: &Vec<SquareMapping>, depth: usize) -> (r:
    Vec<Vec<u8>>)
    requires
        is_matrix(image.grid()),
        table_fits(grid_width(image.grid()), grid_height(image.grid()), mapping@),
        sums_in_range(pixel_count(image.grid())),
    ensures
        r.grid() == iterate(image.grid(), mapping@, depth as int),
{
    let width: usize = image.width();
    let height: usize = image.height();
    let ghost source = image.grid();
    let mut canvas: Vec<Vec<u8>> = copy_rect(image, 0, 0, width, height);
    assert(canvas.grid() =~= source) by {
        assert forall|y: int| 0 <= y < height implies #[trigger] canvas.grid()[y] == source[y] by {
            assert(source[y].len() == width);
            assert(canvas.grid()[y] =~= source[y]);
        }
    }
    let mut round: usize = 0;
    while round < depth
        invariant
            source == image.grid(),
            is_matrix(source),
            table_fits(grid_width(source), grid_height(source), mapping@),
            sums_in_range(pixel_count(source)),
            round <= depth,
            canvas.grid() == iterate(source, mapping@, round as int),
        decreases depth - round,
    {
        proof {
            lemma_iterate_shape(source, mapping@, round as int);
        }
        canvas = apply_square_mapping(&canvas, mapping);
        round = round + 1;
    }
    canvas
}

/// A canvas of the given size with the same sample everywhere.
fn blank_canvas(width: usize, height: usize, value: u8) -> (r: Vec<Vec<u8>>)
    ensures
        r.grid() == constant_grid(width as int, height as int, value),
{
    let ghost target = constant_grid(width as int, height as int, value);
    let mut out: Vec<Vec<u8>> = Vec::new();
    let mut y: usize = 0;
    while y < height
        invariant
            target == constant_grid(width as int, height as int, value),
            y <= height,
            out@.len() == y,
            forall|b: int| 0 <= b < y ==> (#[trigger] out@[b])@ == target[b],
        decreases height - y,
    {
        let mut row: Vec<u8> = Vec::new();
        let mut x: usize = 0;
        while x < width
            invariant
                x <= width,
                row@.len() == x,
                forall|a: int| 0 <= a < x ==> #[trigger] row@[a] == value,
            decreases width - x,
        {
            row.push(value);
            x = x + 1;
        }
        assert(row@ =~= target[y as int]);
        out.push(row);
        y = y + 1;
    }
    assert(out.grid() =~= target);
    out
}

/// The view of what decompression returned.
pub open spec fn image_view(r: Result<Vec<Vec<u8>>, FractalError>) -> Result<
    Seq<Seq<u8>>,
    FractalError,
> {
    match r {
        Ok(image) => Ok(image.grid()),
        Err(e) => Err(e),
    }
}

/// Decompresses: starting from a mid-gray canvas of the padded size, applies
/// the mapping table `settings.iterations` times, each round to the canvas
/// that the round before it left, and cuts the result to the size of the
/// image.
///
/// A compressed image whose sizes or squares do not fit is refused with
/// `OutOfBounds`, one with a domain square that its target square does not
/// divide with `NotDivisible`.
pub fn decompress(comp: &Compressed, settings: DecompSettings) -> (r: Result<Vec<Vec<u8>>, FractalError>)
    requires
        sums_in_range(comp.padded_width * comp.padded_height),
    ensures
        is_decompress_result(*comp, settings.iterations as int, image_view(r)),
        r matches Ok(image) ==> is_matrix(image.grid()) && grid_width(image.grid())
            == comp.orig_width && grid_height(image.grid()) == comp.orig_height,
{
    let width: usize = comp.padded_width;
    let height: usize = comp.padded_height;
    if comp.orig_width == 0 || comp.orig_width > width || comp.orig_height == 0 || comp.orig_height
        > height {
        return Err(FractalError::OutOfBounds);
    }
    let count: usize = comp.mapping.len();
    let mut k: usize = 0;
    while k < count
        invariant
            width == comp.padded_width,
            height == comp.padded_height,
            count == comp.mapping@.len(),
            k <= count,
            forall|b: int|
                0 <= b < k ==> mapping_fits(width as int, height as int, #[trigger] comp.mapping@[b]),
        decreases count - k,
    {
        let m: SquareMapping = comp.mapping[k];
        if !square_is_inside(width, height, m.small) || !square_is_inside(width, height, m.big) {
            return Err(FractalError::OutOfBounds);
        }
        k = k + 1;
    }
    k = 0;
    while k < count
        invariant
            width == comp.padded_width,
            height == comp.padded_height,
            0 < comp.orig_width <= width,
            0 < comp.orig_height <= height,
            count == comp.mapping@.len(),
            k <= count,
            forall|b: int|
                0 <= b < count ==> mapping_fits(
                    width as int,
                    height as int,
                    #[trigger] comp.mapping@[b],
                ),
            forall|b: int| 0 <= b < k ==> mapping_divides(#[trigger] comp.mapping@[b]),
        decreases count - k,
    {
        let m: SquareMapping = comp.mapping[k];
        if m.big.side % m.small.side != 0 {
            return Err(FractalError::NotDivisible);
        }
        k = k + 1;
    }
    let seed: Vec<Vec<u8>> = blank_canvas(width, height, SEED_SAMPLE);
    let iterated: Vec<Vec<u8>> = apply_square_mapping_rec(&seed, &comp.mapping, settings.iterations);
    proof {
        lemma_iterate_shape(seed.grid(), comp.mapping@, settings.iterations as int);
    }
    Ok(copy_rect(&iterated, 0, 0, comp.orig_width, comp.orig_height))
}

/// The side of the domain blocks by which a channel is compressed.
pub const CHANNEL_BIG_SQUARE_SIZE: usize = 16;

/// The side of the target blocks by which a channel is compressed.
pub const CHANNEL_SMALL_SQUARE_SIZE: usize = 4;

/// The grouping factor by which a channel is compressed.
pub const CHANNEL_GROUPING_FACTOR: usize = 20;

/// The number of rounds by which a channel is decompressed.
pub const CHANNEL_ITERATIONS: usize = 20;

/// The settings by which a channel is compressed.
pub open spec fn channel_settings() -> CompSettings {
    CompSettings {
        big_square_size: CHANNEL_BIG_SQUARE_SIZE,
        small_square_size: CHANNEL_SMALL_SQUARE_SIZE,
        grouping_factor: CHANNEL_GROUPING_FACTOR,
    }
}

/// Compresses a channel and decompresses it again, both with the channel
/// settings. The result is what decompression makes of a compression of the
/// channel; there is none where the channel has no compression.
pub fn encode_and_decode_ch(ch: Vec<Vec<u8>>) -> (r: Result<Vec<Vec<u8>>, FractalError>)
    requires
        is_matrix(ch.grid()),
        round_up(grid_width(ch.grid()), CHANNEL_BIG_SQUARE_SIZE as int) <= usize::MAX,
        round_up(grid_height(ch.grid()), CHANNEL_BIG_SQUARE_SIZE as int) <= usize::MAX,
        sums_in_range(
            round_up(grid_width(ch.grid()), CHANNEL_BIG_SQUARE_SIZE as int) * round_up(
                grid_height(ch.grid()),
                CHANNEL_BIG_SQUARE_SIZE as int,
            ),
        ),
    ensures
        match r {
            Ok(image) => exists|c: Compressed|
                #[trigger] is_compress_result(ch.grid(), channel_settings(), Ok(c)) && image.grid()
                    == decoded(c, CHANNEL_ITERATIONS as int),
            Err(e) => is_compress_result(ch.grid(), channel_settings(), Err(e)),
        },
{
    let settings = CompSettings {
        big_square_size: CHANNEL_BIG_SQUARE_SIZE,
        small_square_size: CHANNEL_SMALL_SQUARE_SIZE,
        grouping_factor: CHANNEL_GROUPING_FACTOR,
    };
    let c: Compressed = match compress(&ch, settings) {
        Ok(c) => c,
        Err(e) => {
            return Err(e);
        },
    };
    proof {
        lemma_compressed_is_decodable(ch.grid(), settings, c);
        lemma_pad_shape(ch.grid(), CHANNEL_BIG_SQUARE_SIZE as int);
    }
    match decompress(&c, DecompSettings { iterations: CHANNEL_ITERATIONS }) {
        Ok(image) => {
            assert(settings == channel_settings());
            assert(is_compress_result(ch.grid(), channel_settings(), Ok(c)) && image.grid()
                == decoded(c, CHANNEL_ITERATIONS as int));
            Ok(image)
        },
        Err(e) => Err(e),
    }
}

} // verus!
