//! What holds of the grid and of the candidate cells between any two steps
//! of the sampler.

use vstd::prelude::*;
use vstd::arithmetic::power::pow;
use vstd::arithmetic::power2::{pow2, lemma_pow2_pos, lemma_pow2_adds, lemma_pow2_unfold};
use vstd::arithmetic::div_mod::{lemma_fundamental_div_mod, lemma_mod_bound};
use crate::point::{VecLike, within};
use crate::combination::combinations;
use crate::distance::{far, all_far, all_within};
use crate::grid::{Grid, CELL, LEVELS, MAX_RESOLUTION};
use crate::index::{parent_spec, encode_spec, wrapped, lemma_encode_decode};
use crate::radix::{
    all_below, digits, rank, lemma_digits_rank, lemma_digits_below, lemma_rank_bound,
};
use crate::ring::{ring_free, clear_of, neighbour};
use crate::separation::{lemma_far_beyond_ring, lemma_sqdist_symmetric};
use crate::random::{in_cell, cell_within, spacing, lemma_cell_is_pow2};
use crate::ring::ring;
use crate::separation::RING_SUFFICES;

verus! {

/// `c` is a point of one of the cells of a grid of `side` cells per axis.
pub open spec fn inside(c: Seq<int>, side: int) -> bool {
    forall|n: int| 0 <= n < c.len() ==> 0 <= #[trigger] c[n] < side * CELL
}

/// `c` names a cell of level `level` inside a grid of `side` top-level
/// cells per axis.
pub open spec fn candidate(c: Seq<int>, side: int, level: nat) -> bool {
    all_below(c, side * pow2(level))
}

/// Every entry of `indices` names a cell of level `level` inside the grid.
pub open spec fn candidates_valid<V: VecLike>(indices: Seq<V>, side: int, level: nat) -> bool {
    forall|i: int| 0 <= i < indices.len() ==> candidate(#[trigger] indices[i].coords(), side, level)
}

/// Every sample lies inside the cell whose slot holds it.
pub open spec fn tidy<V: VecLike>(grid: &Grid<V>) -> bool {
    forall|i: int|
        0 <= i < grid.slots().len() ==> match #[trigger] grid.slots()[i] {
            Some(v) => in_cell(v.coords(), digits(i, grid.side_spec(), V::dim_spec()), 0),
            None => true,
        }
}

/// The samples in the slots `i` and `j` keep their distance.
pub open spec fn pair_apart<V: VecLike>(grid: &Grid<V>, i: int, j: int) -> bool {
    match (grid.slots()[i], grid.slots()[j]) {
        (Some(a), Some(b)) => far(a.coords(), b.coords(), grid.resolution_spec(), grid.periodic()),
        _ => true,
    }
}

/// Every slot of `given` is a slot of the grid that holds a sample.
pub open spec fn given_held<V: VecLike>(grid: &Grid<V>, given: Set<int>) -> bool {
    forall|i: int|
        given.contains(i) ==> 0 <= i < grid.slots().len() && (#[trigger] grid.slots()[i]).is_some()
}

/// Any two samples of the grid keep their distance, unless both were given
/// beforehand.
pub open spec fn separated<V: VecLike>(grid: &Grid<V>, given: Set<int>) -> bool {
    forall|i: int, j: int|
        0 <= i < grid.slots().len() && 0 <= j < grid.slots().len() && i != j && !(given.contains(i)
            && given.contains(j)) ==> #[trigger] pair_apart(grid, i, j)
}

/// Every sample of the grid that was not given beforehand keeps its
/// distance from every point of `outside`.
pub open spec fn clear_of_outside<V: VecLike>(
    grid: &Grid<V>,
    given: Set<int>,
    outside: Seq<V>,
) -> bool {
    forall|i: int|
        0 <= i < grid.slots().len() && !given.contains(i) ==> match #[trigger] grid.slots()[i] {
            Some(v) => all_far(outside, v.coords(), grid.resolution_spec(), grid.periodic()),
            None => true,
        }
}

/// The grid is one that the sampler works on. The space has an axis, and
/// few enough for the cells around a cell to be counted. The samples lie in
/// their cells. The slots of `given` hold the samples that were given
/// beforehand; every other sample keeps its distance from the points of
/// `outside` and, in a space of at most four axes, from every other sample
/// of the grid.
pub open spec fn grid_ok<V: VecLike>(grid: &Grid<V>, given: Set<int>, outside: Seq<V>) -> bool {
    &&& grid.wf()
    &&& grid.bounded()
    &&& V::dim_spec() >= 1
    &&& combinations(ring(), V::dim_spec()) <= usize::MAX
    &&& all_within(outside)
    &&& tidy(grid)
    &&& given_held(grid, given)
    &&& clear_of_outside(grid, given, outside)
    &&& V::dim_spec() <= RING_SUFFICES ==> separated(grid, given)
}

/// The grid `after` has the shape of `before` and holds every sample that
/// `before` holds, in the same slot.
pub open spec fn extends<V: VecLike>(after: &Grid<V>, before: &Grid<V>) -> bool {
    &&& after.side_spec() == before.side_spec()
    &&& after.resolution_spec() == before.resolution_spec()
    &&& after.periodic() == before.periodic()
    &&& after.slots().len() == before.slots().len()
    &&& forall|i: int|
        0 <= i < before.slots().len() && (#[trigger] before.slots()[i]).is_some()
            ==> after.slots()[i] == before.slots()[i]
}

/// No slot of the grid holds a sample.
pub open spec fn vacant<V: VecLike>(grid: &Grid<V>) -> bool {
    forall|i: int| 0 <= i < grid.slots().len() ==> (#[trigger] grid.slots()[i]).is_none()
}

/// Some slot of the grid holds a sample.
pub open spec fn inhabited<V: VecLike>(grid: &Grid<V>) -> bool {
    exists|i: int| 0 <= i < grid.slots().len() && (#[trigger] grid.slots()[i]).is_some()
}

pub proof fn lemma_level_widths(level: nat)
    requires
        level <= LEVELS,
    ensures
        pow2(level) * spacing(level) == CELL,
        pow2(level) >= 1,
        spacing(level) >= 1,
{
    lemma_cell_is_pow2();
    lemma_pow2_adds(level, (LEVELS - level) as nat);
    lemma_pow2_pos(level);
    lemma_pow2_pos((LEVELS - level) as nat);
}

/// A candidate cell lies inside the grid, and so does its parent.
pub proof fn lemma_candidate(c: Seq<int>, side: int, level: nat)
    requires
        candidate(c, side, level),
        level <= LEVELS,
        0 <= side,
        side * CELL <= MAX_RESOLUTION,
    ensures
        cell_within(c, level),
        within(c, MAX_RESOLUTION as int),
        all_below(parent_spec(c, level), side),
        parent_spec(c, level).len() == c.len(),
        forall|n: int|
            0 <= n < c.len() ==> 0 <= (#[trigger] c[n]) * spacing(level) && (c[n] + 1) * spacing(
                level,
            ) <= side * CELL,
{
    lemma_level_widths(level);
    let p = pow2(level) as int;
    let w = spacing(level);
    assert forall|n: int| 0 <= n < c.len() implies 0 <= (#[trigger] c[n]) * w && (c[n] + 1) * w
        <= side * CELL && -MAX_RESOLUTION <= c[n] <= MAX_RESOLUTION && 0 <= c[n] / p < side by {
        let x = c[n];
        assert(0 <= x < side * p);
        lemma_fundamental_div_mod(x, p);
        lemma_mod_bound(x, p);
        assert(0 <= x * w && (x + 1) * w <= side * (p * w) && x <= side * (p * w) && 0 <= x / p
            < side) by (nonlinear_arith)
            requires
                0 <= x < side * p,
                p >= 1,
                w >= 1,
                x == p * (x / p) + x % p,
                0 <= x % p < p,
        ;
    }
    assert forall|n: int| 0 <= n < parent_spec(c, level).len() implies 0
        <= #[trigger] parent_spec(c, level)[n] < side by {
        assert(0 <= c[n] / p < side);
    }
    assert forall|n: int| 0 <= n < c.len() implies -MAX_RESOLUTION <= (#[trigger] c[n]) * w && (
    c[n] + 1) * w <= MAX_RESOLUTION by {
        assert(0 <= c[n] * w && (c[n] + 1) * w <= side * CELL);
    }
}

/// A point of a cell is a point of the cell's parent.
pub proof fn lemma_in_parent(s: Seq<int>, c: Seq<int>, level: nat)
    requires
        in_cell(s, c, level),
        level <= LEVELS,
    ensures
        in_cell(s, parent_spec(c, level), 0),
{
    lemma_level_widths(level);
    lemma_cell_is_pow2();
    let p = pow2(level) as int;
    let w = spacing(level);
    let parent = parent_spec(c, level);
    assert forall|n: int| 0 <= n < parent.len() implies parent[n] * spacing(0) <= #[trigger] s[n]
        < (parent[n] + 1) * spacing(0) by {
        let x = c[n];
        let q = x / p;
        assert(x * w <= s[n] < (x + 1) * w);
        lemma_fundamental_div_mod(x, p);
        lemma_mod_bound(x, p);
        assert(q * (p * w) <= x * w && (x + 1) * w <= (q + 1) * (p * w)) by (nonlinear_arith)
            requires
                x == p * q + x % p,
                0 <= x % p < p,
                w >= 1,
                p >= 1,
        ;
    }
}

/// The children of a candidate cell are candidate cells of the next
/// level.
pub proof fn lemma_child_candidate(c: Seq<int>, child: Seq<int>, side: int, level: nat)
    requires
        candidate(c, side, level),
        child.len() == c.len(),
        forall|n: int| 0 <= n < c.len() ==> 2 * c[n] <= #[trigger] child[n] <= 2 * c[n] + 1,
    ensures
        candidate(child, side, level + 1),
{
    lemma_pow2_unfold(level + 1);
    let p = pow2(level) as int;
    assert forall|n: int| 0 <= n < child.len() implies 0 <= #[trigger] child[n] < side * pow2(
        level + 1,
    ) by {
        assert(0 <= c[n] < side * p);
        assert(side * (2 * p) == 2 * (side * p)) by (nonlinear_arith);
    }
}

/// The flat index of a cell inside the grid is the number that its
/// coordinates write, and decodes to them again.
pub proof fn lemma_encode_inside(p: Seq<int>, side: int, periodic: bool)
    requires
        all_below(p, side),
    ensures
        encode_spec(p, side, periodic) == Some(rank(p, side)),
        0 <= rank(p, side) < pow(side, p.len()),
        digits(rank(p, side), side, p.len()) == p,
{
    assert forall|n: int| 0 <= n < p.len() implies p[n] % side == p[n] by {
        assert(0 <= p[n] < side);
        vstd::arithmetic::div_mod::lemma_small_mod(p[n] as nat, side as nat);
    }
    assert(wrapped(p, side, periodic) =~= p);
    lemma_rank_bound(p, side);
    lemma_digits_rank(p, side);
}

/// Putting a point that passed the search into the empty slot of its cell
/// leaves the grid one that the sampler works on.
pub proof fn lemma_accept<V: VecLike>(
    before: &Grid<V>,
    after: &Grid<V>,
    given: Set<int>,
    outside: Seq<V>,
    index: Seq<int>,
    level: nat,
    sample: V,
)
    requires
        grid_ok(before, given, outside),
        level <= LEVELS,
        index.len() == V::dim_spec(),
        candidate(index, before.side_spec(), level),
        in_cell(sample.coords(), index, level),
        within(sample.coords(), MAX_RESOLUTION as int),
        ring_free(before, parent_spec(index, level), sample.coords()),
        all_far(outside, sample.coords(), before.resolution_spec(), before.periodic()),
        encode_spec(parent_spec(index, level), before.side_spec(), before.periodic()).is_some(),
        after.wf(),
        after.side_spec() == before.side_spec(),
        after.resolution_spec() == before.resolution_spec(),
        after.periodic() == before.periodic(),
        ({
            let at = encode_spec(
                parent_spec(index, level),
                before.side_spec(),
                before.periodic(),
            ).unwrap();
            &&& before.slots()[at].is_none()
            &&& after.slots() == before.slots().update(at, Some(sample))
        }),
    ensures
        grid_ok(after, given, outside),
{
    let side = before.side_spec();
    let unit = before.resolution_spec();
    let periodic = before.periodic();
    let dim = V::dim_spec();
    let p = parent_spec(index, level);
    let c = sample.coords();
    let at = encode_spec(p, side, periodic).unwrap();
    before.lemma_wf();
    lemma_candidate(index, side, level);
    lemma_in_parent(c, index, level);
    lemma_encode_inside(p, side, periodic);
    assert(!given.contains(at));
    assert forall|i: int| 0 <= i < after.slots().len() implies match #[trigger] after.slots()[i] {
        Some(v) => within(v.coords(), MAX_RESOLUTION as int) && in_cell(
            v.coords(),
            digits(i, side, dim),
            0,
        ) && (!given.contains(i) ==> all_far(outside, v.coords(), unit, periodic)),
        None => true,
    } by {
        if i != at {
            assert(after.slots()[i] == before.slots()[i]);
        }
    }
    assert forall|i: int| given.contains(i) implies 0 <= i < after.slots().len() && (
    #[trigger] after.slots()[i]).is_some() by {
        assert(before.slots()[i].is_some());
    }
    if dim <= RING_SUFFICES {
        assert forall|i: int, j: int|
            0 <= i < after.slots().len() && 0 <= j < after.slots().len() && i != j && !(
            given.contains(i) && given.contains(j)) && after.slots()[i].is_some()
                && after.slots()[j].is_some() implies #[trigger] pair_apart(after, i, j) by {
            if i != at && j != at {
                assert(pair_apart(before, i, j));
            } else {
                let other = if i == at {
                    j
                } else {
                    i
                };
                let v = before.slots()[other].unwrap();
                assert(after.slots()[other] == before.slots()[other]);
                v.lemma_dim();
                sample.lemma_dim();
                lemma_near_and_far(before, p, sample, other);
                assert(far(v.coords(), c, unit, periodic) && far(c, v.coords(), unit, periodic));
            }
        }
    }
}

/// A point that passed the search around the cell at `p`, in which it
/// lies, keeps its distance from the sample in any slot.
pub proof fn lemma_near_and_far<V: VecLike>(grid: &Grid<V>, p: Seq<int>, sample: V, other: int)
    requires
        grid.wf(),
        tidy(grid),
        V::dim_spec() <= RING_SUFFICES,
        p.len() == V::dim_spec(),
        all_below(p, grid.side_spec()),
        in_cell(sample.coords(), p, 0),
        ring_free(grid, p, sample.coords()),
        0 <= other < grid.slots().len(),
        grid.slots()[other].is_some(),
    ensures
        far(
            grid.slots()[other].unwrap().coords(),
            sample.coords(),
            grid.resolution_spec(),
            grid.periodic(),
        ),
        far(
            sample.coords(),
            grid.slots()[other].unwrap().coords(),
            grid.resolution_spec(),
            grid.periodic(),
        ),
{
    let side = grid.side_spec();
    let unit = grid.resolution_spec();
    let periodic = grid.periodic();
    let dim = V::dim_spec();
    let c = sample.coords();
    let v = grid.slots()[other].unwrap();
    grid.lemma_wf();
    v.lemma_dim();
    sample.lemma_dim();
    if exists|k: int|
        0 <= k < combinations(ring(), dim) && encode_spec(
            #[trigger] neighbour(p, k),
            side,
            periodic,
        ) == Some(other) {
        let k = choose|k: int|
            0 <= k < combinations(ring(), dim) && encode_spec(
                #[trigger] neighbour(p, k),
                side,
                periodic,
            ) == Some(other);
        assert(clear_of(grid, p, c, k));
        assert(grid.at(neighbour(p, k)) == Some(Some(v)));
        lemma_sqdist_symmetric(v.coords(), c, unit, periodic);
    } else {
        let q = digits(other, side, dim);
        if side > 0 {
            lemma_digits_below(other, side, dim);
        } else {
            // No grid of no cells has a slot, unless it has no axes.
            if dim > 0 {
                vstd::arithmetic::power::lemma0_pow(dim);
            }
            assert(q =~= Seq::<int>::empty()) by {
                crate::radix::lemma_digits_len(other, side, dim);
            }
        }
        crate::radix::lemma_digits_len(other, side, dim);
        lemma_encode_decode(other, side, dim, periodic);
        assert(in_cell(v.coords(), q, 0));
        lemma_far_beyond_ring(p, q, c, v.coords(), side, unit, periodic);
    }
}

} // verus!
