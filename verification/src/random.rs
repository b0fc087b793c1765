//! The random source, and the draw of a point inside a cell.

use vstd::prelude::*;
use vstd::arithmetic::power2::{
    pow2, lemma_pow2_pos, lemma_pow2_subtracts, lemma2_to64, lemma2_to64_rest,
};
use rand::rngs::StdRng;
use crate::point::{VecLike, within, plus, scaled};
use crate::grid::{Grid, CELL, LEVELS, MAX_RESOLUTION};
use crate::index::two_pow;

verus! {

/// The random source, `rand::rngs::StdRng`: a value that is handed on, of
/// which nothing is known here.
#[verifier::external_type_specification]
#[verifier::external_body]
pub struct ExStdRng(rand::rngs::StdRng);

/// Calls `rand::Rng::gen_range` with the half-open range from zero to
/// `bound`. Taken on trust: the result is a number of that range. Which
/// one depends on the generator's state, of which nothing is said.
#[verifier::external_body]
fn random_below(rng: &mut StdRng, bound: i128) -> (r: i128)
    requires
        bound > 0,
    ensures
        0 <= r < bound,
{
    rand::Rng::gen_range(rng, 0..bound)
}

/// A random place in a list of `len` entries.
pub fn random_index(rng: &mut StdRng, len: usize) -> (i: usize)
    requires
        len > 0,
    ensures
        i < len,
{
    random_below(rng, len as i128) as usize
}

/// The width, in lattice steps, of a cell of level `level`.
pub open spec fn spacing(level: nat) -> int {
    pow2((LEVELS - level) as nat) as int
}

/// The point of the cell at `index` of level `level` that lies `offsets`
/// from the cell's origin.
pub open spec fn placed(index: Seq<int>, level: nat, offsets: Seq<int>) -> Seq<int> {
    Seq::new(index.len(), |n: int| index[n] * spacing(level) + offsets[n])
}

/// `c` is a point of the cell at `index` of level `level`.
pub open spec fn in_cell(c: Seq<int>, index: Seq<int>, level: nat) -> bool {
    &&& c.len() == index.len()
    &&& forall|n: int|
        0 <= n < index.len() ==> index[n] * spacing(level) <= #[trigger] c[n] < (index[n] + 1)
            * spacing(level)
}

/// The cell at `index` of level `level` lies within the bounds that
/// distances are computed for.
pub open spec fn cell_within(index: Seq<int>, level: nat) -> bool {
    forall|n: int|
        0 <= n < index.len() ==> -MAX_RESOLUTION <= (#[trigger] index[n]) * spacing(level) && (
        index[n] + 1) * spacing(level) <= MAX_RESOLUTION
}

/// Every entry of `offsets` is a step count within a cell of level `level`.
pub open spec fn offsets_fit(offsets: Seq<int>, level: nat) -> bool {
    forall|n: int| 0 <= n < offsets.len() ==> 0 <= #[trigger] offsets[n] < spacing(level)
}

pub proof fn lemma_cell_is_pow2()
    ensures
        CELL == pow2(LEVELS as nat),
        spacing(0) == CELL,
{
    lemma2_to64();
    lemma2_to64_rest();
}

/// The width of a cell of level `level`: the width of a top-level cell
/// halved `level` times.
pub fn cell_spacing<V: VecLike>(grid: &Grid<V>, level: usize) -> (w: i128)
    requires
        grid.wf(),
        level <= LEVELS,
    ensures
        w == spacing(level as nat),
        0 < w <= CELL,
{
    let split = two_pow(level);
    proof {
        lemma_cell_is_pow2();
        lemma_pow2_subtracts(level as nat, LEVELS as nat);
        lemma_pow2_pos(level as nat);
        let w = pow2((LEVELS - level) as nat) as int;
        let s = pow2(level as nat) as int;
        assert(w <= CELL) by (nonlinear_arith)
            requires
                w == (CELL as int) / s,
                s >= 1,
                CELL > 0,
        ;
    }
    grid.cell() / split
}

/// One random step count below `width` for each axis.
fn draw_offsets<V: VecLike>(rng: &mut StdRng, width: i128) -> (r: V)
    requires
        width > 0,
    ensures
        forall|n: int| 0 <= n < V::dim_spec() ==> 0 <= #[trigger] r.coords()[n] < width,
{
    let dim = V::dim();
    let mut result = V::zero();
    let mut n: usize = 0;
    proof {
        result.lemma_dim();
    }
    while n < dim
        invariant
            n <= dim,
            dim == V::dim_spec(),
            width > 0,
            result.coords().len() == dim,
            forall|j: int| 0 <= j < n ==> 0 <= #[trigger] result.coords()[j] < width,
        decreases dim - n,
    {
        let o = random_below(rng, width);
        result.set(n, o);
        proof {
            result.lemma_dim();
        }
        n += 1;
    }
    result
}

/// A random point of the cell at `index` of level `level`.
pub fn choose_random_sample<V: VecLike>(
    rng: &mut StdRng,
    grid: &Grid<V>,
    index: V,
    level: usize,
) -> (r: V)
    requires
        grid.wf(),
        level <= LEVELS,
        cell_within(index.coords(), level as nat),
    ensures
        in_cell(r.coords(), index.coords(), level as nat),
        within(r.coords(), MAX_RESOLUTION as int),
{
    let width = cell_spacing(grid, level);
    let offsets = draw_offsets::<V>(rng, width);
    proof {
        offsets.lemma_dim();
    }
    place_in_cell(index, level, offsets)
}

/// The point of the cell at `index` that lies `offsets` from its origin.
pub fn place_in_cell<V: VecLike>(index: V, level: usize, offsets: V) -> (r: V)
    requires
        level <= LEVELS,
        cell_within(index.coords(), level as nat),
        offsets_fit(offsets.coords(), level as nat),
    ensures
        r.coords() == placed(index.coords(), level as nat, offsets.coords()),
        in_cell(r.coords(), index.coords(), level as nat),
        within(r.coords(), MAX_RESOLUTION as int),
{
    let width = two_pow(LEVELS - level);
    proof {
        index.lemma_dim();
        offsets.lemma_dim();
        assert forall|n: int| 0 <= n < V::dim_spec() implies {
            let x = #[trigger] index.coords()[n];
            &&& -MAX_RESOLUTION <= x * width
            &&& x * width + width <= MAX_RESOLUTION
            &&& 0 <= offsets.coords()[n] < width
        } by {
            let x = index.coords()[n];
            let w = spacing(level as nat);
            assert(-MAX_RESOLUTION <= x * w && (x + 1) * w <= MAX_RESOLUTION);
            assert((x + 1) * w == x * w + w) by (nonlinear_arith);
        }
    }
    let origin = scaled(index, width);
    proof {
        assert forall|n: int| 0 <= n < V::dim_spec() implies i128::MIN
            <= #[trigger] origin.coords()[n] + offsets.coords()[n] <= i128::MAX by {
            assert(origin.coords()[n] == index.coords()[n] * width);
        }
    }
    let r = plus(origin, offsets);
    proof {
        let w = spacing(level as nat);
        assert forall|n: int| 0 <= n < V::dim_spec() implies {
            let x = index.coords()[n];
            &&& #[trigger] r.coords()[n] == x * w + offsets.coords()[n]
            &&& x * w <= r.coords()[n] < (x + 1) * w
            &&& -MAX_RESOLUTION <= r.coords()[n] <= MAX_RESOLUTION
        } by {
            let x = index.coords()[n];
            assert(origin.coords()[n] == x * width);
            assert(-MAX_RESOLUTION <= x * w && x * w + w <= MAX_RESOLUTION);
            assert((x + 1) * w == x * w + w) by (nonlinear_arith);
        }
        assert(r.coords() =~= placed(index.coords(), level as nat, offsets.coords()));
    }
    r
}

} // verus!
