//! What the eight symmetries of the square do to a matrix, and the laws of
//! their composition.

use crate::byte_rect::Transform;
use crate::grid::{grid_height, grid_width, is_matrix};
use vstd::prelude::*;

verus! {

/// The sample of `g` that the symmetry `t` brings to column `x` of row `y`,
/// the coordinates counted along the axes of `g`.
pub open spec fn source_sample(g: Seq<Seq<u8>>, t: Transform, x: int, y: int) -> u8 {
    let sx = if t.x_reversed() {
        grid_width(g) - 1 - x
    } else {
        x
    };
    let sy = if t.y_reversed() {
        grid_height(g) - 1 - y
    } else {
        y
    };
    g[sy][sx]
}

/// The matrix that the symmetry `t` makes of `g`. Where `t` swaps the axes,
/// the rows of the result run along the columns of `g`, and width and
/// height change places.
pub open spec fn transform_grid(g: Seq<Seq<u8>>, t: Transform) -> Seq<Seq<u8>> {
    if t.axes_swapped() {
        Seq::new(
            grid_width(g) as nat,
            |x: int| Seq::new(grid_height(g) as nat, |y: int| source_sample(g, t, x, y)),
        )
    } else {
        Seq::new(
            grid_height(g) as nat,
            |y: int| Seq::new(grid_width(g) as nat, |x: int| source_sample(g, t, x, y)),
        )
    }
}

/// A symmetry of a matrix is a matrix: of the same shape, or with width and
/// height exchanged where the symmetry swaps the axes.
pub proof fn lemma_transform_shape(g: Seq<Seq<u8>>, t: Transform)
    requires
        is_matrix(g),
    ensures
        is_matrix(transform_grid(g, t)),
        grid_width(transform_grid(g, t)) == if t.axes_swapped() {
            grid_height(g)
        } else {
            grid_width(g)
        },
        grid_height(transform_grid(g, t)) == if t.axes_swapped() {
            grid_width(g)
        } else {
            grid_height(g)
        },
{
}

/// Each symmetry is undone by its inverse: a matrix transformed by `t` and
/// then by the inverse of `t` is the matrix itself.
pub proof fn lemma_inverse_undoes(g: Seq<Seq<u8>>, t: Transform)
    requires
        is_matrix(g),
    ensures
        transform_grid(transform_grid(g, t), t.inverse()) == g,
{
    let m = transform_grid(g, t);
    let r = transform_grid(m, t.inverse());
    lemma_transform_shape(g, t);
    lemma_transform_shape(m, t.inverse());
    assert(r.len() == g.len());
    assert forall|y: int| 0 <= y < g.len() implies #[trigger] r[y] == g[y] by {
        assert(r[y].len() == g[y].len());
        assert forall|x: int| 0 <= x < g[y].len() implies r[y][x] == g[y][x] by {
            assert(g[y].len() == g[0].len());
        }
        assert(r[y] =~= g[y]);
    }
    assert(r =~= g);
}

/// A two by two matrix whose four samples differ.
pub open spec fn witness_grid() -> Seq<Seq<u8>> {
    seq![seq![0u8, 1u8], seq![2u8, 3u8]]
}

/// No two symmetries do the same to the witness matrix.
pub proof fn lemma_symmetries_differ(t: Transform, u: Transform)
    requires
        transform_grid(witness_grid(), t) == transform_grid(witness_grid(), u),
    ensures
        t == u,
{
    let w = witness_grid();
    let a = transform_grid(w, t);
    let b = transform_grid(w, u);
    assert(w[0][0] == 0 && w[0][1] == 1 && w[1][0] == 2 && w[1][1] == 3);
    assert(a[0][0] == b[0][0]);
    assert(a[0][1] == b[0][1]);
}

/// Within the eight symmetries the inverse is the only one that undoes `t`:
/// a symmetry `u` that brings every matrix transformed by `t` back to
/// itself is the inverse of `t`.
pub proof fn lemma_inverse_is_unique(t: Transform, u: Transform)
    requires
        forall|g: Seq<Seq<u8>>| is_matrix(g) ==> #[trigger] transform_grid(transform_grid(g, t), u) == g,
    ensures
        u == t.inverse(),
{
    let w = witness_grid();
    assert(is_matrix(w));
    assert(transform_grid(transform_grid(w, t), u) == w);
    let back = t.inverse().inverse();
    lemma_inverse_undoes(w, t);
    // Transform both sides by the inverse of `u` and of the inverse of `t`.
    let m = transform_grid(w, t);
    lemma_transform_shape(w, t);
    lemma_inverse_undoes(m, u);
    lemma_inverse_undoes(m, t.inverse());
    assert(transform_grid(w, u.inverse()) == m);
    assert(transform_grid(w, t.inverse().inverse()) == m);
    lemma_symmetries_differ(u.inverse(), back);
}

} // verus!
