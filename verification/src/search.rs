//! What the block matcher looks for: among all pool entries under all
//! symmetries, the first one whose best affine fit comes closest to the
//! target. A candidate without a fit ends the search with its error.

use crate::affine::{dist_grid, fit_coeffs, fit_result, linear_grid};
use crate::byte_rect::{ByteRect, LinearCoeffs, Transform};
use crate::error::FractalError;
use crate::grid::{is_matrix, same_shape};
use crate::symmetry::transform_grid;
use vstd::prelude::*;

verus! {

/// The samples of each entry of a pool.
pub open spec fn pool_grids<R: ByteRect>(squares: Seq<R>) -> Seq<Seq<Seq<u8>>> {
    Seq::new(squares.len(), |i: int| squares[i].grid())
}

/// Pool entry `i` under the symmetry `t`.
pub open spec fn candidate(pool: Seq<Seq<Seq<u8>>>, i: int, t: Transform) -> Seq<Seq<u8>> {
    transform_grid(pool[i], t)
}

/// The best fit of a candidate to the target, or why it has none.
pub open spec fn fit_at(pool: Seq<Seq<Seq<u8>>>, target: Seq<Seq<u8>>, i: int, t: Transform) -> Result<
    LinearCoeffs,
    FractalError,
> {
    fit_result(candidate(pool, i, t), target)
}

/// The squared error that is left between the target and a candidate
/// under its best fit.
pub open spec fn error_at(pool: Seq<Seq<Seq<u8>>>, target: Seq<Seq<u8>>, i: int, t: Transform) -> int {
    dist_grid(target, linear_grid(candidate(pool, i, t), fit_coeffs(candidate(pool, i, t), target)))
}

/// The place of a candidate in the order of the search: pool entries in
/// ascending order, and for each of them the symmetries in their order.
pub open spec fn place(i: int, t: Transform) -> int {
    i * 8 + t.index()
}

/// Every candidate has the shape of the target.
pub open spec fn shapes_agree(pool: Seq<Seq<Seq<u8>>>, target: Seq<Seq<u8>>) -> bool {
    forall|i: int, t: Transform|
        0 <= i < pool.len() ==> same_shape(#[trigger] candidate(pool, i, t), target)
}

/// Every candidate has a fit.
pub open spec fn all_fit(pool: Seq<Seq<Seq<u8>>>, target: Seq<Seq<u8>>) -> bool {
    forall|i: int, t: Transform|
        0 <= i < pool.len() ==> (#[trigger] fit_at(pool, target, i, t)) is Ok
}

/// Candidate `(i, t)` is the first in the order of the search that has no
/// fit.
pub open spec fn is_first_failure(
    pool: Seq<Seq<Seq<u8>>>,
    target: Seq<Seq<u8>>,
    i: int,
    t: Transform,
) -> bool {
    &&& 0 <= i < pool.len()
    &&& fit_at(pool, target, i, t) is Err
    &&& forall|j: int, u: Transform|
        0 <= j < pool.len() && place(j, u) < place(i, t) ==> (#[trigger] fit_at(
            pool,
            target,
            j,
            u,
        )) is Ok
}

/// `e` is why the search has no result: the pool is empty, or `e` is the
/// error of the first candidate in the order of the search that has no
/// fit: `DimensionMismatch` where it has another shape than the target,
/// `DegenerateFit` where all its samples are equal.
pub open spec fn is_search_failure(
    pool: Seq<Seq<Seq<u8>>>,
    target: Seq<Seq<u8>>,
    e: FractalError,
) -> bool {
    if pool.len() == 0 {
        e == FractalError::EmptyCandidatePool
    } else {
        exists|i: int, t: Transform|
            #[trigger] is_first_failure(pool, target, i, t) && fit_at(pool, target, i, t) == Err::<
                LinearCoeffs,
                FractalError,
            >(e)
    }
}

/// Candidate `(i, t)` has the fit `c`, no candidate with a fit leaves a
/// smaller error, and none that leaves the same error comes before it.
pub open spec fn is_closest(
    pool: Seq<Seq<Seq<u8>>>,
    target: Seq<Seq<u8>>,
    i: int,
    t: Transform,
    c: LinearCoeffs,
) -> bool {
    &&& 0 <= i < pool.len()
    &&& fit_at(pool, target, i, t) == Ok::<LinearCoeffs, FractalError>(c)
    &&& forall|j: int, u: Transform|
        0 <= j < pool.len() && (#[trigger] fit_at(pool, target, j, u)) is Ok ==> {
            ||| error_at(pool, target, i, t) < error_at(pool, target, j, u)
            ||| (error_at(pool, target, i, t) == error_at(pool, target, j, u) && place(i, t)
                <= place(j, u))
        }
}

/// What a search of `pool` for `target` returns: the closest candidate
/// where the pool is not empty and every candidate has a fit, and else the
/// reason why the search has no result.
pub open spec fn is_search_result(
    pool: Seq<Seq<Seq<u8>>>,
    target: Seq<Seq<u8>>,
    r: Result<(usize, Transform, LinearCoeffs), FractalError>,
) -> bool {
    match r {
        Ok((i, t, c)) => pool.len() > 0 && all_fit(pool, target) && is_closest(
            pool,
            target,
            i as int,
            t,
            c,
        ),
        Err(e) => is_search_failure(pool, target, e),
    }
}

/// What the search knows after the candidates at the places below `p`:
/// they all have a fit, and `best` is the closest of them with its error,
/// or nothing where there is none of them.
pub open spec fn searched(
    pool: Seq<Seq<Seq<u8>>>,
    target: Seq<Seq<u8>>,
    p: int,
    best: Option<(usize, Transform, LinearCoeffs, u64)>,
) -> bool {
    &&& forall|j: int, u: Transform|
        0 <= j < pool.len() && place(j, u) < p ==> (#[trigger] fit_at(pool, target, j, u)) is Ok
    &&& match best {
        None => p <= 0,
        Some((i, t, c, e)) => {
            &&& 0 <= i < pool.len()
            &&& place(i as int, t) < p
            &&& fit_at(pool, target, i as int, t) == Ok::<LinearCoeffs, FractalError>(c)
            &&& e == error_at(pool, target, i as int, t)
            &&& forall|j: int, u: Transform|
                0 <= j < pool.len() && place(j, u) < p && (#[trigger] fit_at(pool, target, j, u)) is Ok
                    ==> {
                    ||| e < error_at(pool, target, j, u)
                    ||| (e == error_at(pool, target, j, u) && place(i as int, t) <= place(j, u))
                }
        },
    }
}

/// Two candidates at the same place of the search are the same.
pub proof fn lemma_place_is_candidate(i: int, t: Transform, j: int, u: Transform)
    requires
        place(i, t) == place(j, u),
    ensures
        i == j,
        t == u,
{
    assert(t.index() == u.index());
}

/// One step of the search: after the candidate `(i, t)`, which has the fit
/// `c`, has been weighed against the best so far, the search knows the
/// places up to and including its own.
pub proof fn lemma_search_step(
    pool: Seq<Seq<Seq<u8>>>,
    target: Seq<Seq<u8>>,
    i: int,
    t: Transform,
    c: LinearCoeffs,
    before: Option<(usize, Transform, LinearCoeffs, u64)>,
    after: Option<(usize, Transform, LinearCoeffs, u64)>,
)
    requires
        0 <= i < pool.len(),
        i <= usize::MAX,
        searched(pool, target, place(i, t), before),
        fit_at(pool, target, i, t) == Ok::<LinearCoeffs, FractalError>(c),
        0 <= error_at(pool, target, i, t) <= u64::MAX,
        after == match before {
            None => Some((i as usize, t, c, error_at(pool, target, i, t) as u64)),
            Some((_, _, _, least)) => if error_at(pool, target, i, t) < least {
                Some((i as usize, t, c, error_at(pool, target, i, t) as u64))
            } else {
                before
            },
        },
    ensures
        searched(pool, target, place(i, t) + 1, after),
{
    let p = place(i, t);
    assert forall|j: int, u: Transform| 0 <= j < pool.len() && place(j, u) < p + 1 implies (place(
        j,
        u,
    ) < p || (j == i && u == t)) by {
        if place(j, u) == p {
            lemma_place_is_candidate(i, t, j, u);
        }
    }
}

/// A candidate without a fit that comes after candidates that all have
/// one is why the search has no result.
pub proof fn lemma_search_failed(
    pool: Seq<Seq<Seq<u8>>>,
    target: Seq<Seq<u8>>,
    i: int,
    t: Transform,
    e: FractalError,
    best: Option<(usize, Transform, LinearCoeffs, u64)>,
)
    requires
        0 <= i < pool.len(),
        searched(pool, target, place(i, t), best),
        fit_at(pool, target, i, t) == Err::<LinearCoeffs, FractalError>(e),
    ensures
        is_search_failure(pool, target, e),
{
    assert(is_first_failure(pool, target, i, t));
}

/// At the end of the search its knowledge is the result.
pub proof fn lemma_search_done(
    pool: Seq<Seq<Seq<u8>>>,
    target: Seq<Seq<u8>>,
    i: usize,
    t: Transform,
    c: LinearCoeffs,
    e: u64,
)
    requires
        pool.len() > 0,
        searched(pool, target, (pool.len() * 8) as int, Some((i, t, c, e))),
    ensures
        is_search_result(pool, target, Ok((i, t, c))),
{
    assert forall|j: int, u: Transform| 0 <= j < pool.len() implies place(j, u) < pool.len() * 8 by {}
}

/// Only one candidate is the closest.
pub proof fn lemma_closest_is_unique(
    pool: Seq<Seq<Seq<u8>>>,
    target: Seq<Seq<u8>>,
    i1: int,
    t1: Transform,
    c1: LinearCoeffs,
    i2: int,
    t2: Transform,
    c2: LinearCoeffs,
)
    requires
        is_closest(pool, target, i1, t1, c1),
        is_closest(pool, target, i2, t2, c2),
    ensures
        i1 == i2,
        t1 == t2,
        c1 == c2,
{
    assert(fit_at(pool, target, i1, t1) is Ok);
    assert(fit_at(pool, target, i2, t2) is Ok);
    assert(place(i1, t1) == place(i2, t2));
}

/// The search is deterministic: two results for the same pool and the same
/// target are the same result.
pub proof fn lemma_search_is_deterministic(
    pool: Seq<Seq<Seq<u8>>>,
    target: Seq<Seq<u8>>,
    r1: Result<(usize, Transform, LinearCoeffs), FractalError>,
    r2: Result<(usize, Transform, LinearCoeffs), FractalError>,
)
    requires
        is_search_result(pool, target, r1),
        is_search_result(pool, target, r2),
    ensures
        r1 == r2,
{
    match (r1, r2) {
        (Ok((i1, t1, c1)), Ok((i2, t2, c2))) => {
            lemma_closest_is_unique(pool, target, i1 as int, t1, c1, i2 as int, t2, c2);
        },
        (Err(e1), Err(e2)) => {
            if pool.len() > 0 {
                let (i1, t1) = choose|i: int, t: Transform|
                    #[trigger] is_first_failure(pool, target, i, t) && fit_at(pool, target, i, t)
                        == Err::<LinearCoeffs, FractalError>(e1);
                let (i2, t2) = choose|i: int, t: Transform|
                    #[trigger] is_first_failure(pool, target, i, t) && fit_at(pool, target, i, t)
                        == Err::<LinearCoeffs, FractalError>(e2);
                // Neither of the two comes before the other.
                assert(fit_at(pool, target, i1, t1) is Err);
                assert(fit_at(pool, target, i2, t2) is Err);
                assert(place(i1, t1) == place(i2, t2));
                lemma_place_is_candidate(i1, t1, i2, t2);
            }
        },
        (Ok(_), Err(e)) => {
            lemma_failure_excludes_fit(pool, target, e);
        },
        (Err(e), Ok(_)) => {
            lemma_failure_excludes_fit(pool, target, e);
        },
    }
}

/// Where a search has no result, the pool is empty or not every candidate
/// has a fit.
pub proof fn lemma_failure_excludes_fit(pool: Seq<Seq<Seq<u8>>>, target: Seq<Seq<u8>>, e: FractalError)
    requires
        is_search_failure(pool, target, e),
    ensures
        pool.len() == 0 || !all_fit(pool, target),
{
    if pool.len() > 0 {
        let (i, t) = choose|i: int, t: Transform|
            #[trigger] is_first_failure(pool, target, i, t) && fit_at(pool, target, i, t) == Err::<
                LinearCoeffs,
                FractalError,
            >(e);
        assert(fit_at(pool, target, i, t) is Err);
    }
}

/// Every entry of the pool is a matrix.
pub open spec fn pool_of_matrices(pool: Seq<Seq<Seq<u8>>>) -> bool {
    forall|i: int| 0 <= i < pool.len() ==> is_matrix(#[trigger] pool[i])
}

} // verus!
