//! What a mapping table is: which domain blocks form the pool, and which
//! mapping stands for each target block.

use crate::affine::{fit_det, lemma_symmetry_keeps_fit, roughness_grid};
use crate::byte_rect::{LinearCoeffs, Transform};
use crate::error::FractalError;
use crate::attractor::{decode_failure, mapping_divides, mapping_fits};
use crate::fractal::{CompSettings, Compressed, SquareMapping};
use crate::grid::{
    chunk_coords, chunk_count, divisible_by, grid_height, grid_width, is_matrix, lemma_pad_shape,
    lemma_round_up, pad_grid, pixel_count, same_shape, scale_grid, square_grid,
    square_in_bounds,
};
use crate::ranking::ranking;
use crate::search::{
    all_fit, candidate, fit_at, is_closest, is_first_failure, is_search_failure,
    pool_of_matrices, shapes_agree,
};
use crate::symmetry::lemma_transform_shape;
use vstd::arithmetic::div_mod::{
    lemma_div_pos_is_pos, lemma_fundamental_div_mod, lemma_fundamental_div_mod_converse,
    lemma_mod_bound,
};
use vstd::prelude::*;

verus! {

/// Both block sizes are positive, and the size of the domain blocks is a
/// whole multiple of the size of the target blocks.
pub open spec fn sizes_valid(big: int, small: int) -> bool {
    small > 0 && big > 0 && big % small == 0
}

/// The number of domain blocks of a padded matrix.
pub open spec fn domain_count(padded: Seq<Seq<u8>>, big: int) -> int {
    chunk_count(grid_width(padded), grid_height(padded), big)
}

/// The number of target blocks of a padded matrix.
pub open spec fn target_count(padded: Seq<Seq<u8>>, small: int) -> int {
    chunk_count(grid_width(padded), grid_height(padded), small)
}

/// Domain block `i`, brought down to the size of a target block.
pub open spec fn domain_block(padded: Seq<Seq<u8>>, big: int, small: int, i: int) -> Seq<Seq<u8>> {
    scale_grid(square_grid(padded, chunk_coords(grid_width(padded), big, i)), big / small)
}

/// The key by which the domain blocks are ranked: the roughness of each,
/// at the size of a target block.
pub open spec fn domain_key(padded: Seq<Seq<u8>>, big: int, small: int) -> spec_fn(int) -> int {
    |i: int| roughness_grid(domain_block(padded, big, small, i))
}

/// The domain blocks in the order of their ranking, smoothest first.
pub open spec fn domain_ranking(padded: Seq<Seq<u8>>, big: int, small: int) -> Seq<usize> {
    ranking(domain_count(padded, big), domain_key(padded, big, small))
}

/// The number of domain blocks that are searched: the number of all of
/// them divided by the grouping factor.
pub open spec fn pool_size(padded: Seq<Seq<u8>>, big: int, grouping: int) -> int {
    domain_count(padded, big) / grouping
}

/// The pool that is searched: the smoothest domain blocks, smoothest
/// first, each at the size of a target block.
pub open spec fn active_pool(padded: Seq<Seq<u8>>, big: int, small: int, grouping: int) -> Seq<
    Seq<Seq<u8>>,
> {
    Seq::new(
        pool_size(padded, big, grouping) as nat,
        |a: int| domain_block(padded, big, small, domain_ranking(padded, big, small)[a] as int),
    )
}

/// Target block `j`.
pub open spec fn target_block(padded: Seq<Seq<u8>>, small: int, j: int) -> Seq<Seq<u8>> {
    square_grid(padded, chunk_coords(grid_width(padded), small, j))
}

/// `m` is the mapping for target block `j`: its target square is that
/// block, and its domain square, symmetry and coefficients are those of the
/// closest candidate of the pool.
pub open spec fn encodes(
    m: SquareMapping,
    padded: Seq<Seq<u8>>,
    big: int,
    small: int,
    grouping: int,
    j: int,
) -> bool {
    &&& m.small == chunk_coords(grid_width(padded), small, j)
    &&& exists|a: int|
        {
            &&& #[trigger] is_closest(
                active_pool(padded, big, small, grouping),
                target_block(padded, small, j),
                a,
                m.trans,
                m.coeffs,
            )
            &&& domain_ranking(padded, big, small)[a] < domain_count(padded, big)
            &&& m.big == chunk_coords(
                grid_width(padded),
                big,
                domain_ranking(padded, big, small)[a] as int,
            )
        }
}

/// All samples of some block of the pool are equal, so that it has no fit.
pub open spec fn some_block_is_flat(padded: Seq<Seq<u8>>, big: int, small: int, grouping: int) -> bool {
    exists|a: int|
        0 <= a < pool_size(padded, big, grouping) && fit_det(
            #[trigger] active_pool(padded, big, small, grouping)[a],
        ) == 0
}

/// Why a padded matrix has no mapping table: `NotDivisible` where the block
/// sizes are not valid or do not divide the matrix, `EmptyCandidatePool`
/// where the grouping factor is zero or leaves no domain block to search,
/// `DegenerateFit` where all samples of some block of the pool are equal.
pub open spec fn table_failure(padded: Seq<Seq<u8>>, big: int, small: int, grouping: int) -> Option<
    FractalError,
> {
    if !(sizes_valid(big, small) && divisible_by(padded, big)) {
        Some(FractalError::NotDivisible)
    } else if grouping <= 0 || pool_size(padded, big, grouping) == 0 {
        Some(FractalError::EmptyCandidatePool)
    } else if some_block_is_flat(padded, big, small, grouping) {
        Some(FractalError::DegenerateFit)
    } else {
        None
    }
}

/// `table` holds one mapping for each target block, in the order of the
/// target blocks.
pub open spec fn is_mapping_table(
    table: Seq<SquareMapping>,
    padded: Seq<Seq<u8>>,
    big: int,
    small: int,
    grouping: int,
) -> bool {
    &&& table.len() == target_count(padded, small)
    &&& forall|j: int|
        0 <= j < table.len() ==> encodes(#[trigger] table[j], padded, big, small, grouping, j)
}

/// What the mapping of a padded matrix may return.
pub open spec fn is_table_result(
    padded: Seq<Seq<u8>>,
    big: int,
    small: int,
    grouping: int,
    r: Result<Seq<SquareMapping>, FractalError>,
) -> bool {
    match r {
        Ok(table) => table_failure(padded, big, small, grouping) is None && is_mapping_table(
            table,
            padded,
            big,
            small,
            grouping,
        ),
        Err(e) => table_failure(padded, big, small, grouping) == Some(e),
    }
}

/// What the compression of `image` may return: the mapping table of the
/// image padded to a multiple of the side of the domain blocks, with the
/// sizes of the image and of the padded image, or the reason why that
/// table does not exist.
pub open spec fn is_compress_result(
    image: Seq<Seq<u8>>,
    settings: CompSettings,
    r: Result<Compressed, FractalError>,
) -> bool {
    let big = settings.big_square_size as int;
    let small = settings.small_square_size as int;
    let grouping = settings.grouping_factor as int;
    let padded = pad_grid(image, big);
    match r {
        Ok(c) => {
            &&& table_failure(padded, big, small, grouping) is None
            &&& c.orig_width == grid_width(image)
            &&& c.orig_height == grid_height(image)
            &&& c.padded_width == grid_width(padded)
            &&& c.padded_height == grid_height(padded)
            &&& is_mapping_table(c.mapping@, padded, big, small, grouping)
        },
        Err(e) => table_failure(padded, big, small, grouping) == Some(e),
    }
}

/// With valid sizes the domain blocks are a whole number of target blocks
/// wide.
pub proof fn lemma_sizes(big: int, small: int)
    requires
        sizes_valid(big, small),
    ensures
        big / small > 0,
        big == small * (big / small),
        big % (big / small) == 0,
        big / (big / small) == small,
        small <= big,
{
    let k = big / small;
    lemma_fundamental_div_mod(big, small);
    assert(k > 0 && small <= big) by (nonlinear_arith)
        requires
            big == small * k,
            big > 0,
            small > 0,
    ;
    assert(big == small * k + 0);
    assert(big == k * small + 0) by (nonlinear_arith)
        requires
            big == small * k,
    ;
    lemma_fundamental_div_mod_converse(big, k, small, 0);
}

/// A matrix that a size divides is divided by each divisor of that size.
pub proof fn lemma_divisible_by_divisor(g: Seq<Seq<u8>>, big: int, small: int)
    requires
        is_matrix(g),
        sizes_valid(big, small),
        divisible_by(g, big),
    ensures
        divisible_by(g, small),
{
    lemma_sizes(big, small);
    let k = big / small;
    let w = grid_width(g);
    let h = grid_height(g);
    lemma_fundamental_div_mod(w, big);
    lemma_fundamental_div_mod(h, big);
    assert(w == (w / big * k) * small + 0) by (nonlinear_arith)
        requires
            w == big * (w / big),
            big == small * k,
    ;
    assert(h == (h / big * k) * small + 0) by (nonlinear_arith)
        requires
            h == big * (h / big),
            big == small * k,
    ;
    lemma_fundamental_div_mod_converse(w, small, w / big * k, 0);
    lemma_fundamental_div_mod_converse(h, small, h / big * k, 0);
}

/// A matrix that `times` divides, made smaller `times` times, is a matrix
/// of the width and height divided by `times`.
pub proof fn lemma_scale_shape(g: Seq<Seq<u8>>, times: int)
    requires
        is_matrix(g),
        divisible_by(g, times),
    ensures
        is_matrix(scale_grid(g, times)),
        grid_width(scale_grid(g, times)) == grid_width(g) / times,
        grid_height(scale_grid(g, times)) == grid_height(g) / times,
{
    let w = grid_width(g);
    let h = grid_height(g);
    lemma_fundamental_div_mod(w, times);
    lemma_fundamental_div_mod(h, times);
    assert(w / times > 0 && h / times > 0) by (nonlinear_arith)
        requires
            w == times * (w / times),
            h == times * (h / times),
            w > 0,
            h > 0,
            times > 0,
    ;
}

/// Domain blocks at the size of a target block, and target blocks, are
/// square matrices of the side of a target block.
pub proof fn lemma_block_shapes(padded: Seq<Seq<u8>>, big: int, small: int, i: int)
    requires
        sizes_valid(big, small),
        big <= usize::MAX,
    ensures
        is_matrix(domain_block(padded, big, small, i)),
        grid_width(domain_block(padded, big, small, i)) == small,
        grid_height(domain_block(padded, big, small, i)) == small,
        is_matrix(target_block(padded, small, i)),
        grid_width(target_block(padded, small, i)) == small,
        grid_height(target_block(padded, small, i)) == small,
        pixel_count(target_block(padded, small, i)) == small * small,
        is_matrix(square_grid(padded, chunk_coords(grid_width(padded), big, i))),
        grid_width(square_grid(padded, chunk_coords(grid_width(padded), big, i))) == big,
        grid_height(square_grid(padded, chunk_coords(grid_width(padded), big, i))) == big,
        divisible_by(square_grid(padded, chunk_coords(grid_width(padded), big, i)), big / small),
{
    lemma_sizes(big, small);
    let block = square_grid(padded, chunk_coords(grid_width(padded), big, i));
    assert(is_matrix(block));
    lemma_scale_shape(block, big / small);
}

/// The pool is made of matrices, and each of its entries has, under each
/// symmetry, the shape of each target block.
pub proof fn lemma_pool_shapes(padded: Seq<Seq<u8>>, big: int, small: int, grouping: int, j: int)
    requires
        sizes_valid(big, small),
        big <= usize::MAX,
    ensures
        pool_of_matrices(active_pool(padded, big, small, grouping)),
        shapes_agree(active_pool(padded, big, small, grouping), target_block(padded, small, j)),
{
    let pool = active_pool(padded, big, small, grouping);
    let order = domain_ranking(padded, big, small);
    lemma_block_shapes(padded, big, small, j);
    assert forall|a: int| 0 <= a < pool.len() implies is_matrix(#[trigger] pool[a]) by {
        lemma_block_shapes(padded, big, small, order[a] as int);
    }
    assert forall|a: int, t: Transform| 0 <= a < pool.len() implies same_shape(
        #[trigger] candidate(pool, a, t),
        target_block(padded, small, j),
    ) by {
        lemma_block_shapes(padded, big, small, order[a] as int);
        lemma_transform_shape(pool[a], t);
    }
}

/// Every candidate of the pool has a fit to a target block where no block
/// of the pool is flat, and only there.
pub proof fn lemma_pool_fits(padded: Seq<Seq<u8>>, big: int, small: int, grouping: int, j: int)
    requires
        sizes_valid(big, small),
        big <= usize::MAX,
        pool_size(padded, big, grouping) > 0,
    ensures
        all_fit(active_pool(padded, big, small, grouping), target_block(padded, small, j))
            <==> !some_block_is_flat(padded, big, small, grouping),
{
    let pool = active_pool(padded, big, small, grouping);
    let target = target_block(padded, small, j);
    lemma_pool_shapes(padded, big, small, grouping, j);
    if all_fit(pool, target) {
        assert forall|a: int| 0 <= a < pool.len() implies fit_det(#[trigger] pool[a]) != 0 by {
            assert(fit_at(pool, target, a, Transform::HeadToTop) is Ok);
            lemma_symmetry_keeps_fit(pool[a], Transform::HeadToTop);
        }
    }
    if !some_block_is_flat(padded, big, small, grouping) {
        assert forall|a: int, t: Transform| 0 <= a < pool.len() implies (#[trigger] fit_at(
            pool,
            target,
            a,
            t,
        )) is Ok by {
            assert(fit_det(pool[a]) != 0);
            lemma_symmetry_keeps_fit(pool[a], t);
            assert(same_shape(candidate(pool, a, t), target));
        }
    }
}

/// The search of the pool for a target block fails only with
/// `DegenerateFit`, and only where some block of the pool is flat.
pub proof fn lemma_pool_failure(
    padded: Seq<Seq<u8>>,
    big: int,
    small: int,
    grouping: int,
    j: int,
    e: FractalError,
)
    requires
        sizes_valid(big, small),
        big <= usize::MAX,
        pool_size(padded, big, grouping) > 0,
        is_search_failure(
            active_pool(padded, big, small, grouping),
            target_block(padded, small, j),
            e,
        ),
    ensures
        e == FractalError::DegenerateFit,
        some_block_is_flat(padded, big, small, grouping),
{
    let pool = active_pool(padded, big, small, grouping);
    let target = target_block(padded, small, j);
    lemma_pool_shapes(padded, big, small, grouping, j);
    let (i, t) = choose|i: int, t: Transform|
        #[trigger] is_first_failure(pool, target, i, t) && fit_at(pool, target, i, t) == Err::<
            LinearCoeffs,
            FractalError,
        >(e);
    assert(same_shape(candidate(pool, i, t), target));
    lemma_symmetry_keeps_fit(pool[i], t);
    assert(fit_det(pool[i]) == 0);
}

/// A matrix that a size divides is cut into at least one square.
pub proof fn lemma_some_chunk(g: Seq<Seq<u8>>, size: int)
    requires
        is_matrix(g),
        divisible_by(g, size),
    ensures
        chunk_count(grid_width(g), grid_height(g), size) > 0,
{
    let w = grid_width(g);
    let h = grid_height(g);
    lemma_fundamental_div_mod(w, size);
    lemma_fundamental_div_mod(h, size);
    assert((w / size) * (h / size) > 0) by (nonlinear_arith)
        requires
            w == size * (w / size),
            h == size * (h / size),
            w > 0,
            h > 0,
            size > 0,
    ;
}

/// Each square of the tiling of a matrix lies inside the matrix.
pub proof fn lemma_chunk_in_bounds(g: Seq<Seq<u8>>, size: int, k: int)
    requires
        is_matrix(g),
        grid_width(g) <= usize::MAX,
        grid_height(g) <= usize::MAX,
        divisible_by(g, size),
        0 <= k < chunk_count(grid_width(g), grid_height(g), size),
    ensures
        square_in_bounds(g, chunk_coords(grid_width(g), size, k)),
        chunk_coords(grid_width(g), size, k).x == (k % (grid_width(g) / size)) * size,
        chunk_coords(grid_width(g), size, k).y == (k / (grid_width(g) / size)) * size,
        chunk_coords(grid_width(g), size, k).side == size,
{
    let w = grid_width(g);
    let h = grid_height(g);
    let nx = w / size;
    let ny = h / size;
    lemma_fundamental_div_mod(w, size);
    lemma_fundamental_div_mod(h, size);
    assert(nx > 0) by (nonlinear_arith)
        requires
            w == size * nx,
            w > 0,
            size > 0,
    ;
    let cx = k % nx;
    let cy = k / nx;
    lemma_fundamental_div_mod(k, nx);
    lemma_mod_bound(k, nx);
    lemma_div_pos_is_pos(k, nx);
    assert(cy < ny) by (nonlinear_arith)
        requires
            k == nx * cy + cx,
            0 <= cx,
            k < nx * ny,
            nx > 0,
    ;
    assert(0 <= cx * size && cx * size + size <= w) by (nonlinear_arith)
        requires
            0 <= cx < nx,
            w == size * nx,
            size > 0,
    ;
    assert(0 <= cy * size && cy * size + size <= h) by (nonlinear_arith)
        requires
            0 <= cy < ny,
            h == size * ny,
            size > 0,
    ;
}

/// What compression returns can be decompressed: the sizes fit, each square
/// of each mapping lies inside the padded image, and the side of each
/// domain square is a multiple of the side of its target square.
pub proof fn lemma_compressed_is_decodable(image: Seq<Seq<u8>>, settings: CompSettings, c: Compressed)
    requires
        is_matrix(image),
        is_compress_result(image, settings, Ok(c)),
    ensures
        decode_failure(c) is None,
{
    let big = settings.big_square_size as int;
    let small = settings.small_square_size as int;
    let grouping = settings.grouping_factor as int;
    let padded = pad_grid(image, big);
    lemma_pad_shape(image, big);
    lemma_round_up(grid_width(image), big);
    lemma_round_up(grid_height(image), big);
    lemma_divisible_by_divisor(padded, big, small);
    assert forall|k: int| 0 <= k < c.mapping@.len() implies mapping_fits(
        c.padded_width as int,
        c.padded_height as int,
        #[trigger] c.mapping@[k],
    ) && mapping_divides(c.mapping@[k]) by {
        let m = c.mapping@[k];
        assert(encodes(m, padded, big, small, grouping, k));
        lemma_chunk_in_bounds(padded, small, k);
        let a = choose|a: int|
            {
                &&& #[trigger] is_closest(
                    active_pool(padded, big, small, grouping),
                    target_block(padded, small, k),
                    a,
                    m.trans,
                    m.coeffs,
                )
                &&& domain_ranking(padded, big, small)[a] < domain_count(padded, big)
                &&& m.big == chunk_coords(
                    grid_width(padded),
                    big,
                    domain_ranking(padded, big, small)[a] as int,
                )
            };
        lemma_chunk_in_bounds(padded, big, domain_ranking(padded, big, small)[a] as int);
    }
}

} // verus!
