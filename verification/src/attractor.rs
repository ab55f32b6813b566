//! What decompression computes: the rounds in which a mapping table is
//! applied to a canvas, and the image that is left after them.

use crate::affine::linear_grid;
use crate::byte_rect::SquareCoords;
use crate::encoding::{lemma_scale_shape, lemma_sizes};
use crate::error::FractalError;
use crate::fractal::{Compressed, SquareMapping};
use crate::grid::{
    constant_grid, divisible_by, grid_height, grid_width, is_matrix, scale_grid, square_grid,
    sub_grid,
};
use crate::symmetry::{lemma_transform_shape, transform_grid};
use vstd::prelude::*;

verus! {

/// The square is not empty and lies inside a matrix of the given size.
pub open spec fn square_fits(width: int, height: int, sq: SquareCoords) -> bool {
    &&& sq.side > 0
    &&& sq.x + sq.side <= width
    &&& sq.y + sq.side <= height
}

/// Both squares of the mapping lie inside a matrix of the given size.
pub open spec fn mapping_fits(width: int, height: int, m: SquareMapping) -> bool {
    square_fits(width, height, m.small) && square_fits(width, height, m.big)
}

/// The side of the domain square is a whole multiple of the side of the
/// target square.
pub open spec fn mapping_divides(m: SquareMapping) -> bool {
    m.small.side > 0 && m.big.side % m.small.side == 0
}

/// Each mapping of the table can be applied to a canvas of the given size.
pub open spec fn table_fits(width: int, height: int, table: Seq<SquareMapping>) -> bool {
    forall|k: int|
        0 <= k < table.len() ==> mapping_fits(width, height, #[trigger] table[k]) && mapping_divides(
            table[k],
        )
}

/// Why a compressed image cannot be decompressed: `OutOfBounds` where the
/// size of the image is zero or above the padded size, or where a square of
/// a mapping is empty or reaches past the padded size; `NotDivisible` where
/// the side of a domain square is no multiple of the side of its target
/// square.
pub open spec fn decode_failure(c: Compressed) -> Option<FractalError> {
    if !(0 < c.orig_width <= c.padded_width && 0 < c.orig_height <= c.padded_height) {
        Some(FractalError::OutOfBounds)
    } else if exists|k: int|
        0 <= k < c.mapping@.len() && !mapping_fits(
            c.padded_width as int,
            c.padded_height as int,
            #[trigger] c.mapping@[k],
        ) {
        Some(FractalError::OutOfBounds)
    } else if exists|k: int| 0 <= k < c.mapping@.len() && !mapping_divides(#[trigger] c.mapping@[k]) {
        Some(FractalError::NotDivisible)
    } else {
        None
    }
}

/// The block that the mapping `m` makes from the canvas: its domain square,
/// brought down to the size of the target square, under the symmetry and
/// the affine map of the mapping.
pub open spec fn block_of(canvas: Seq<Seq<u8>>, m: SquareMapping) -> Seq<Seq<u8>> {
    linear_grid(
        transform_grid(
            scale_grid(square_grid(canvas, m.big), m.big.side as int / m.small.side as int),
            m.trans,
        ),
        m.coeffs,
    )
}

/// The sample at column `x` of row `y` lies in the square.
pub open spec fn in_square(sq: SquareCoords, x: int, y: int) -> bool {
    sq.x <= x < sq.x + sq.side && sq.y <= y < sq.y + sq.side
}

/// The canvas with the samples of the square replaced by those of the
/// block.
pub open spec fn paste(canvas: Seq<Seq<u8>>, sq: SquareCoords, block: Seq<Seq<u8>>) -> Seq<Seq<u8>> {
    Seq::new(
        canvas.len(),
        |y: int|
            Seq::new(
                canvas[y].len(),
                |x: int|
                    if in_square(sq, x, y) {
                        block[y - sq.y][x - sq.x]
                    } else {
                        canvas[y][x]
                    },
            ),
    )
}

/// The canvas after the first `n` mappings of a round: every block is made
/// from `source`, the canvas as it was before the round, and is written
/// over what the mappings before it wrote.
pub open spec fn round_prefix(source: Seq<Seq<u8>>, table: Seq<SquareMapping>, n: int) -> Seq<Seq<u8>>
    decreases n,
{
    if n <= 0 {
        source
    } else {
        paste(round_prefix(source, table, n - 1), table[n - 1].small, block_of(source, table[n - 1]))
    }
}

/// The canvas after one round.
pub open spec fn round_grid(source: Seq<Seq<u8>>, table: Seq<SquareMapping>) -> Seq<Seq<u8>> {
    round_prefix(source, table, table.len() as int)
}

/// The canvas after `rounds` rounds.
pub open spec fn iterate(canvas: Seq<Seq<u8>>, table: Seq<SquareMapping>, rounds: int) -> Seq<Seq<u8>>
    decreases rounds,
{
    if rounds <= 0 {
        canvas
    } else {
        round_grid(iterate(canvas, table, rounds - 1), table)
    }
}

/// The sample of the canvas from which decompression starts: mid-gray.
pub const SEED_SAMPLE: u8 = 128;

/// The image that `iterations` rounds make of a compressed image: the
/// rounds start from a canvas of the padded size that is mid-gray
/// everywhere, and what is left after them is cut to the size of the image.
pub open spec fn decoded(c: Compressed, iterations: int) -> Seq<Seq<u8>> {
    sub_grid(
        iterate(
            constant_grid(c.padded_width as int, c.padded_height as int, SEED_SAMPLE),
            c.mapping@,
            iterations,
        ),
        0,
        0,
        c.orig_width as int,
        c.orig_height as int,
    )
}

/// What decompression may return.
pub open spec fn is_decompress_result(
    c: Compressed,
    iterations: int,
    r: Result<Seq<Seq<u8>>, FractalError>,
) -> bool {
    match r {
        Ok(image) => decode_failure(c) is None && image == decoded(c, iterations),
        Err(e) => decode_failure(c) == Some(e),
    }
}

/// Pasting a block leaves the canvas a matrix of the same shape.
pub proof fn lemma_paste_shape(canvas: Seq<Seq<u8>>, sq: SquareCoords, block: Seq<Seq<u8>>)
    requires
        is_matrix(canvas),
    ensures
        is_matrix(paste(canvas, sq, block)),
        grid_width(paste(canvas, sq, block)) == grid_width(canvas),
        grid_height(paste(canvas, sq, block)) == grid_height(canvas),
{
    let p = paste(canvas, sq, block);
    assert forall|y: int| 0 <= y < p.len() implies (#[trigger] p[y]).len() == p[0].len() by {
        assert(canvas[y].len() == canvas[0].len());
    }
}

/// Each step of a round leaves the canvas a matrix of the same shape.
pub proof fn lemma_round_prefix_shape(source: Seq<Seq<u8>>, table: Seq<SquareMapping>, n: int)
    requires
        is_matrix(source),
    ensures
        is_matrix(round_prefix(source, table, n)),
        grid_width(round_prefix(source, table, n)) == grid_width(source),
        grid_height(round_prefix(source, table, n)) == grid_height(source),
    decreases n,
{
    if n > 0 {
        lemma_round_prefix_shape(source, table, n - 1);
        lemma_paste_shape(
            round_prefix(source, table, n - 1),
            table[n - 1].small,
            block_of(source, table[n - 1]),
        );
    }
}

/// Every round leaves the canvas a matrix of the same shape.
pub proof fn lemma_iterate_shape(canvas: Seq<Seq<u8>>, table: Seq<SquareMapping>, rounds: int)
    requires
        is_matrix(canvas),
    ensures
        is_matrix(iterate(canvas, table, rounds)),
        grid_width(iterate(canvas, table, rounds)) == grid_width(canvas),
        grid_height(iterate(canvas, table, rounds)) == grid_height(canvas),
    decreases rounds,
{
    if rounds > 0 {
        lemma_iterate_shape(canvas, table, rounds - 1);
        lemma_round_prefix_shape(iterate(canvas, table, rounds - 1), table, table.len() as int);
    }
}

/// The block of a mapping that fits is a square matrix of the side of the
/// target square.
pub proof fn lemma_block_shape(canvas: Seq<Seq<u8>>, m: SquareMapping)
    requires
        is_matrix(canvas),
        mapping_fits(grid_width(canvas), grid_height(canvas), m),
        mapping_divides(m),
    ensures
        is_matrix(block_of(canvas, m)),
        grid_width(block_of(canvas, m)) == m.small.side,
        grid_height(block_of(canvas, m)) == m.small.side,
        m.big.side as int / m.small.side as int > 0,
        divisible_by(square_grid(canvas, m.big), m.big.side as int / m.small.side as int),
        (m.big.side as int / m.small.side as int) * (m.big.side as int / m.small.side as int)
            <= grid_width(canvas) * grid_height(canvas),
{
    let big = m.big.side as int;
    let small = m.small.side as int;
    lemma_sizes(big, small);
    let domain = square_grid(canvas, m.big);
    assert(is_matrix(domain));
    lemma_scale_shape(domain, big / small);
    let scaled = scale_grid(domain, big / small);
    lemma_transform_shape(scaled, m.trans);
    let turned = transform_grid(scaled, m.trans);
    assert(is_matrix(linear_grid(turned, m.coeffs)));
    let times = big / small;
    assert(times * times <= grid_width(canvas) * grid_height(canvas)) by (nonlinear_arith)
        requires
            0 < times,
            big == small * times,
            small > 0,
            big <= grid_width(canvas),
            big <= grid_height(canvas),
    ;
}

} // verus!
