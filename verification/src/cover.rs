//! Why nothing is lost on the way: every point of the grid stays in some
//! candidate cell until a sample or a given point is too near for it to
//! become a sample itself.

use vstd::prelude::*;
use vstd::arithmetic::power::pow;
use vstd::arithmetic::power2::{pow2, lemma_pow2_unfold, lemma_pow2_pos};
use vstd::arithmetic::div_mod::{lemma_fundamental_div_mod, lemma_mod_bound};
use crate::point::VecLike;
use crate::combination::{combination, combinations, drawn_from, lemma_combination_covers};
use crate::distance::{norm_sq, difference, turned, turns, far, lemma_periodic_lower};
use crate::grid::{sq_diameter, Grid, CELL, LEVELS};
use crate::index::parent_spec;
use crate::random::{in_cell, spacing, lemma_cell_is_pow2};
use crate::ring::{corner, corners, corner_near, cell_covered_by};
use crate::state::{
    inside, lemma_level_widths, extends, tidy, candidate, lemma_candidate, lemma_in_parent,
    lemma_encode_inside,
};
use crate::radix::rank;
use crate::generator::{child, survivors, coords_of, divided};
use crate::inplace::lemma_member_pooled;
use crate::ring::{pruned, covered_spec, covered_from, covered_by_outside_spec, neighbour, ring};
use crate::index::{encode_spec, lemma_encode_bound};

verus! {

/// The sample in slot `i` of the grid is too near to `x` for `x` to become
/// a sample.
pub open spec fn sample_near<V: VecLike>(grid: &Grid<V>, i: int, x: Seq<int>) -> bool {
    match grid.slots()[i] {
        Some(v) => !far(v.coords(), x, grid.resolution_spec(), grid.periodic()),
        None => false,
    }
}

/// Some sample of the grid is too near to `x`.
pub open spec fn near_sample<V: VecLike>(grid: &Grid<V>, x: Seq<int>) -> bool {
    exists|i: int| 0 <= i < grid.slots().len() && #[trigger] sample_near(grid, i, x)
}

/// Some point of `outside` is too near to `x`.
pub open spec fn near_outside<V: VecLike>(
    outside: Seq<V>,
    x: Seq<int>,
    unit: int,
    periodic: bool,
) -> bool {
    exists|j: int|
        0 <= j < outside.len() && !far((#[trigger] outside[j]).coords(), x, unit, periodic)
}

/// Some candidate cell of level `level` holds `x`.
pub open spec fn in_candidate<V: VecLike>(indices: Seq<V>, x: Seq<int>, level: nat) -> bool {
    exists|i: int| 0 <= i < indices.len() && in_cell(x, (#[trigger] indices[i]).coords(), level)
}

/// The point `x` is accounted for: it cannot become a sample any more, or
/// a candidate cell holds it.
pub open spec fn settled<V: VecLike>(
    grid: &Grid<V>,
    outside: Seq<V>,
    indices: Seq<V>,
    level: nat,
    x: Seq<int>,
) -> bool {
    ||| near_sample(grid, x)
    ||| near_outside(outside, x, grid.resolution_spec(), grid.periodic())
    ||| in_candidate(indices, x, level)
}

/// Every point of the grid is accounted for.
pub open spec fn covers<V: VecLike>(
    grid: &Grid<V>,
    outside: Seq<V>,
    indices: Seq<V>,
    level: nat,
) -> bool {
    forall|x: Seq<int>|
        x.len() == V::dim_spec() && inside(x, grid.side_spec()) ==> #[trigger] settled(
            grid,
            outside,
            indices,
            level,
            x,
        )
}

/// A vector whose components are no larger than those of another is no
/// longer than the other.
pub proof fn lemma_norm_sq_monotone(a: Seq<int>, b: Seq<int>)
    requires
        a.len() == b.len(),
        forall|n: int| 0 <= n < a.len() ==> a[n] * a[n] <= b[n] * b[n],
    ensures
        norm_sq(a) <= norm_sq(b),
    decreases a.len(),
{
    if a.len() > 0 {
        let a0 = a.drop_last();
        let b0 = b.drop_last();
        assert forall|n: int| 0 <= n < a0.len() implies a0[n] * a0[n] <= b0[n] * b0[n] by {
            assert(a[n] * a[n] <= b[n] * b[n]);
        }
        lemma_norm_sq_monotone(a0, b0);
        assert(a[a.len() - 1] * a[a.len() - 1] <= b[a.len() - 1] * b[a.len() - 1]);
    }
}

/// A vector whose components all lie within `m` of zero is shorter than
/// one with `m + 1` along every axis.
pub proof fn lemma_norm_sq_below(d: Seq<int>, m: int)
    requires
        d.len() >= 1,
        m >= 0,
        forall|n: int| 0 <= n < d.len() ==> -m <= #[trigger] d[n] <= m,
    ensures
        norm_sq(d) < d.len() * (m + 1) * (m + 1),
    decreases d.len(),
{
    let x = d.last();
    assert(-m <= d[d.len() - 1] <= m);
    assert(x * x < (m + 1) * (m + 1)) by (nonlinear_arith)
        requires
            -m <= x <= m,
            m >= 0,
    ;
    let rest = d.drop_last();
    if rest.len() == 0 {
        assert(norm_sq(rest) == 0);
        assert(d.len() * (m + 1) * (m + 1) == (m + 1) * (m + 1)) by (nonlinear_arith)
            requires
                d.len() == 1,
        ;
    } else {
        assert forall|n: int| 0 <= n < rest.len() implies -m <= #[trigger] rest[n] <= m by {
            assert(rest[n] == d[n]);
        }
        lemma_norm_sq_below(rest, m);
        assert(d.len() * (m + 1) * (m + 1) == rest.len() * (m + 1) * (m + 1) + (m + 1) * (m + 1))
            by (nonlinear_arith)
            requires
                d.len() == rest.len() + 1,
        ;
    }
}

/// Two points of one top-level cell are less than a diameter apart.
pub proof fn lemma_same_cell_near(a: Seq<int>, b: Seq<int>, p: Seq<int>, unit: int, periodic: bool)
    requires
        p.len() >= 1,
        in_cell(a, p, 0),
        in_cell(b, p, 0),
    ensures
        !far(a, b, unit, periodic),
{
    lemma_cell_is_pow2();
    let d = difference(a, b);
    assert forall|n: int| 0 <= n < d.len() implies -(CELL - 1) <= #[trigger] d[n] <= CELL - 1 by {
        assert(p[n] * CELL <= a[n] < (p[n] + 1) * CELL);
        assert(p[n] * CELL <= b[n] < (p[n] + 1) * CELL);
        assert((p[n] + 1) * CELL == p[n] * CELL + CELL) by (nonlinear_arith);
    }
    lemma_norm_sq_below(d, CELL - 1);
    assert(d.len() * ((CELL - 1) + 1) * ((CELL - 1) + 1) == sq_diameter(a.len()));
    if periodic {
        let zeros = Seq::new(a.len(), |n: int| 0int);
        assert forall|n: int| 0 <= n < zeros.len() implies turns().contains(#[trigger] zeros[n]) by {
            assert(turns()[1] == 0);
        }
        lemma_periodic_lower(a, b, unit, zeros);
        assert forall|n: int| 0 <= n < d.len() implies turned(d, zeros, unit)[n] == d[n] by {
            assert(0 * unit == 0) by (nonlinear_arith);
        }
        assert(turned(d, zeros, unit) =~= d);
    }
}

/// In the bounded cube, a point of a cell whose corners all lie within the
/// disk around `v` lies within that disk itself.
pub proof fn lemma_covered_cell(v: Seq<int>, index: Seq<int>, level: nat, unit: int, x: Seq<int>)
    requires
        v.len() == index.len(),
        in_cell(x, index, level),
        level <= LEVELS,
        cell_covered_by(v, index, level, unit, false),
    ensures
        !far(v, x, unit, false),
{
    let dim = index.len();
    let w = spacing(level);
    lemma_level_widths(level);
    // The corner that is, along each axis, at the farther end from `v`.
    let t = Seq::new(
        dim,
        |n: int|
            if (index[n] * w - v[n]) * (index[n] * w - v[n]) >= ((index[n] + 1) * w - v[n]) * ((
            index[n] + 1) * w - v[n]) {
                0int
            } else {
                1int
            },
    );
    assert forall|n: int| 0 <= n < t.len() implies corners().contains(#[trigger] t[n]) by {
        assert(corners()[0] == 0 && corners()[1] == 1);
    }
    let k = lemma_combination_covers(corners(), t);
    assert(corner_near(v, index, level, unit, false, k));
    let far_corner = corner(index, level, k);
    let to_x = difference(v, x);
    let to_corner = difference(far_corner, v);
    assert forall|n: int| 0 <= n < to_x.len() implies to_x[n] * to_x[n] <= to_corner[n]
        * to_corner[n] by {
        let lo = index[n] * w;
        let hi = (index[n] + 1) * w;
        let y = x[n];
        let c = v[n];
        assert(lo <= y < hi);
        assert(far_corner[n] == (index[n] + t[n]) * w);
        let far_end = far_corner[n];
        assert(far_end == lo || far_end == hi);
        assert((far_end - c) * (far_end - c) >= (lo - c) * (lo - c) && (far_end - c) * (far_end
            - c) >= (hi - c) * (hi - c));
        assert((y - c) * (y - c) <= (lo - c) * (lo - c) || (y - c) * (y - c) <= (hi - c) * (hi
            - c)) by (nonlinear_arith)
            requires
                lo <= y < hi,
        ;
        assert((c - far_end) * (c - far_end) == (far_end - c) * (far_end - c))
            by (nonlinear_arith);
    }
    lemma_norm_sq_monotone(to_x, to_corner);
}

/// The torus is wide enough for a cell to be near to one image of a point
/// only: a turn is at least a cell and two diameters long.
pub open spec fn roomy(unit: int, dim: nat) -> bool {
    unit >= CELL && (unit - CELL) * (unit - CELL) >= 4 * sq_diameter(dim)
}

/// Two numbers whose squares are below `limit` differ by less than a
/// number whose square is four times `limit`.
proof fn lemma_both_small(a: int, b: int, gap: int, limit: int)
    requires
        a * a < limit,
        b * b < limit,
        gap >= 0,
        gap * gap >= 4 * limit,
    ensures
        -gap < a - b < gap,
{
    assert((a - b) * (a - b) <= 2 * (a * a) + 2 * (b * b)) by (nonlinear_arith);
    assert(-gap < a - b < gap) by (nonlinear_arith)
        requires
            (a - b) * (a - b) < gap * gap,
            gap >= 0,
    ;
}

/// The turns by which a corner of the cell comes nearest to `v`, along
/// each axis, where the corner is within the disk around `v` on the torus.
proof fn lemma_corner_turns(
    v: Seq<int>,
    index: Seq<int>,
    level: nat,
    unit: int,
    ends: Seq<int>,
) -> (t: Seq<int>)
    requires
        v.len() == index.len(),
        ends.len() == index.len(),
        drawn_from(ends, corners()),
        cell_covered_by(v, index, level, unit, true),
    ensures
        t.len() == index.len(),
        drawn_from(t, turns()),
        forall|n: int|
            0 <= n < index.len() ==> (#[trigger] v[n] - (index[n] + ends[n]) * spacing(level) + t[n]
                * unit) * (v[n] - (index[n] + ends[n]) * spacing(level) + t[n] * unit)
                < sq_diameter(index.len()),
        norm_sq(
            Seq::new(
                index.len(),
                |n: int| v[n] - (index[n] + ends[n]) * spacing(level) + t[n] * unit,
            ),
        ) < sq_diameter(index.len()),
{
    let k = lemma_combination_covers(corners(), ends);
    assert(corner_near(v, index, level, unit, true, k));
    let c = corner(index, level, k);
    let t = crate::distance::lemma_periodic_attained(c, v, unit);
    let image = turned(difference(c, v), t, unit);
    let shown = Seq::new(
        index.len(),
        |n: int| v[n] - (index[n] + ends[n]) * spacing(level) + t[n] * unit,
    );
    assert(image =~= shown);
    assert forall|n: int| 0 <= n < index.len() implies (#[trigger] v[n] - (index[n] + ends[n])
        * spacing(level) + t[n] * unit) * (v[n] - (index[n] + ends[n]) * spacing(level) + t[n]
        * unit) < sq_diameter(index.len()) by {
        crate::distance::lemma_norm_sq_component(image, n);
    }
    t
}

/// On a roomy torus, a point of a cell whose corners all lie within the
/// disk around `v` lies within that disk itself.
pub proof fn lemma_covered_cell_torus(
    v: Seq<int>,
    index: Seq<int>,
    level: nat,
    unit: int,
    x: Seq<int>,
)
    requires
        v.len() == index.len(),
        in_cell(x, index, level),
        level <= LEVELS,
        roomy(unit, index.len()),
        cell_covered_by(v, index, level, unit, true),
    ensures
        !far(v, x, unit, true),
{
    let dim = index.len();
    let w = spacing(level);
    let limit = sq_diameter(dim);
    lemma_level_widths(level);
    assert(w <= CELL) by (nonlinear_arith)
        requires
            pow2(level) * w == CELL,
            pow2(level) >= 1,
            w >= 1,
    ;
    assert(corners()[0] == 0 && corners()[1] == 1);
    let lows = Seq::new(dim, |n: int| 0int);
    let highs = Seq::new(dim, |n: int| 1int);
    assert forall|n: int| 0 <= n < dim implies corners().contains(#[trigger] lows[n]) by {}
    assert forall|n: int| 0 <= n < dim implies corners().contains(#[trigger] highs[n]) by {}
    let a = lemma_corner_turns(v, index, level, unit, lows);
    let b = lemma_corner_turns(v, index, level, unit, highs);
    // Along each axis both ends of the cell are nearest to `v` by the same
    // turn.
    assert forall|n: int| 0 <= n < dim implies #[trigger] a[n] == b[n] by {
        let p = v[n] - (index[n] + lows[n]) * w + a[n] * unit;
        let q = v[n] - (index[n] + highs[n]) * w + b[n] * unit;
        assert(p * p < limit && q * q < limit);
        lemma_both_small(p, q, unit - CELL, limit);
        assert(turns().contains(a[n]) && turns().contains(b[n]));
        assert(p - q == w + (a[n] - b[n]) * unit) by (nonlinear_arith)
            requires
                p == v[n] - (index[n] + 0) * w + a[n] * unit,
                q == v[n] - (index[n] + 1) * w + b[n] * unit,
        ;
        if a[n] != b[n] {
            let d = a[n] - b[n];
            assert(d * unit >= unit || d * unit <= -unit) by (nonlinear_arith)
                requires
                    d >= 1 || d <= -1,
                    unit >= 0,
            ;
            assert(false);
        }
    }
    // The corner that is, along each axis, at the farther end from the
    // image of `v` that the turns lead to.
    let ends = Seq::new(
        dim,
        |n: int|
            if (v[n] - index[n] * w + a[n] * unit) * (v[n] - index[n] * w + a[n] * unit) >= (v[n]
                - (index[n] + 1) * w + a[n] * unit) * (v[n] - (index[n] + 1) * w + a[n] * unit) {
                0int
            } else {
                1int
            },
    );
    assert forall|n: int| 0 <= n < dim implies corners().contains(#[trigger] ends[n]) by {}
    let c = lemma_corner_turns(v, index, level, unit, ends);
    assert forall|n: int| 0 <= n < dim implies #[trigger] c[n] == a[n] by {
        let known = if ends[n] == 0 {
            v[n] - (index[n] + lows[n]) * w + a[n] * unit
        } else {
            v[n] - (index[n] + highs[n]) * w + b[n] * unit
        };
        let other = v[n] - (index[n] + ends[n]) * w + c[n] * unit;
        assert(known * known < limit && other * other < limit);
        lemma_both_small(known, other, unit - CELL, limit);
        assert(a[n] == b[n]);
        assert(known - other == (a[n] - c[n]) * unit) by (nonlinear_arith)
            requires
                known == v[n] - (index[n] + ends[n]) * w + a[n] * unit,
                other == v[n] - (index[n] + ends[n]) * w + c[n] * unit,
        ;
        if c[n] != a[n] {
            let d = a[n] - c[n];
            assert(d * unit >= unit || d * unit <= -unit) by (nonlinear_arith)
                requires
                    d >= 1 || d <= -1,
                    unit >= 0,
            ;
            assert(false);
        }
    }
    let far_corner = Seq::new(dim, |n: int| v[n] - (index[n] + ends[n]) * w + c[n] * unit);
    let back = Seq::new(dim, |n: int| -a[n]);
    assert forall|n: int| 0 <= n < back.len() implies turns().contains(#[trigger] back[n]) by {
        assert(turns().contains(a[n]));
        assert(turns()[0] == -1 && turns()[1] == 0 && turns()[2] == 1);
    }
    lemma_periodic_lower(v, x, unit, back);
    let to_x = turned(difference(v, x), back, unit);
    assert forall|n: int| 0 <= n < to_x.len() implies to_x[n] * to_x[n] <= far_corner[n]
        * far_corner[n] by {
        let lo = index[n] * w;
        let hi = (index[n] + 1) * w;
        let y = x[n];
        let centre = v[n] + a[n] * unit;
        assert(lo <= y < hi);
        assert(c[n] == a[n]);
        assert(to_x[n] == y - centre) by (nonlinear_arith)
            requires
                to_x[n] == y - v[n] + (-a[n]) * unit,
                centre == v[n] + a[n] * unit,
        ;
        let end = (index[n] + ends[n]) * w;
        assert(end == lo || end == hi);
        assert(far_corner[n] == centre - end);
        assert((centre - end) * (centre - end) >= (centre - lo) * (centre - lo) && (centre - end)
            * (centre - end) >= (centre - hi) * (centre - hi));
        assert((y - centre) * (y - centre) <= (centre - lo) * (centre - lo) || (y - centre) * (y
            - centre) <= (centre - hi) * (centre - hi)) by (nonlinear_arith)
            requires
                lo <= y < hi,
        ;
    }
    lemma_norm_sq_monotone(to_x, far_corner);
}

/// A point of a cell is a point of one of the cell's children.
pub proof fn lemma_in_child(x: Seq<int>, index: Seq<int>, level: nat) -> (k: int)
    requires
        in_cell(x, index, level),
        level < LEVELS,
    ensures
        0 <= k < combinations(corners(), index.len()),
        in_cell(x, crate::generator::child(index, k), level + 1),
{
    let dim = index.len();
    let w = spacing(level);
    let h = spacing(level + 1);
    lemma_pow2_unfold((LEVELS - level) as nat);
    lemma_pow2_pos((LEVELS - level - 1) as nat);
    assert(w == 2 * h);
    let t = Seq::new(
        dim,
        |n: int|
            if x[n] < index[n] * w + h {
                0int
            } else {
                1int
            },
    );
    assert forall|n: int| 0 <= n < t.len() implies corners().contains(#[trigger] t[n]) by {
        assert(corners()[0] == 0 && corners()[1] == 1);
    }
    let k = lemma_combination_covers(corners(), t);
    let c = crate::generator::child(index, k);
    assert forall|n: int| 0 <= n < c.len() implies c[n] * h <= #[trigger] x[n] < (c[n] + 1) * h by {
        assert(index[n] * w <= x[n] < (index[n] + 1) * w);
        assert(c[n] == 2 * index[n] + t[n]);
        assert(c[n] * h == index[n] * w + t[n] * h && (c[n] + 1) * h == index[n] * w + t[n] * h
            + h && (index[n] + 1) * w == index[n] * w + 2 * h) by (nonlinear_arith)
            requires
                c[n] == 2 * index[n] + t[n],
                w == 2 * h,
        ;
        assert(t[n] * h == if t[n] == 0 {
            0
        } else {
            h
        }) by (nonlinear_arith)
            requires
                t[n] == 0 || t[n] == 1,
        ;
    }
    k
}

/// A point of the grid is a point of one of the top-level cells.
pub proof fn lemma_in_top_level(x: Seq<int>, side: int) -> (k: int)
    requires
        inside(x, side),
        side >= 0,
    ensures
        0 <= k < pow(side, x.len()),
        in_cell(x, combination(Seq::new(side as nat, |i: int| i), k, x.len()), 0),
{
    lemma_cell_is_pow2();
    let counted = Seq::new(side as nat, |i: int| i);
    let q = parent_spec(x, LEVELS as nat);
    assert forall|n: int| 0 <= n < q.len() implies 0 <= #[trigger] q[n] < side && q[n] * CELL
        <= x[n] < (q[n] + 1) * CELL by {
        let y = x[n];
        let c = CELL as int;
        assert(0 <= y < side * CELL);
        lemma_fundamental_div_mod(y, c);
        lemma_mod_bound(y, c);
        assert(0 <= y / c < side && (y / c) * c <= y < (y / c + 1) * c) by (nonlinear_arith)
            requires
                y == c * (y / c) + y % c,
                0 <= y % c < c,
                0 <= y < side * c,
        ;
    }
    assert forall|n: int| 0 <= n < q.len() implies counted.contains(#[trigger] q[n]) by {
        assert(counted[q[n]] == q[n]);
    }
    let k = lemma_combination_covers(counted, q);
    k
}

/// What was accounted for stays so when the grid gains samples.
pub proof fn lemma_settled_extends<V: VecLike>(
    before: &Grid<V>,
    after: &Grid<V>,
    outside: Seq<V>,
    indices: Seq<V>,
    level: nat,
    x: Seq<int>,
)
    requires
        extends(after, before),
        near_sample(before, x) || near_outside(
            outside,
            x,
            before.resolution_spec(),
            before.periodic(),
        ),
    ensures
        settled(after, outside, indices, level, x),
{
    if near_sample(before, x) {
        let i = choose|i: int| 0 <= i < before.slots().len() && #[trigger] sample_near(before, i, x);
        assert(before.slots()[i].is_some());
        assert(sample_near(after, i, x));
    }
}

/// Dropping a candidate cell whose top-level cell holds a sample loses no
/// point: the sample is too near to every point of the cell.
pub proof fn lemma_drop_covered<V: VecLike>(
    before: &Grid<V>,
    after: &Grid<V>,
    outside: Seq<V>,
    indices: Seq<V>,
    i: int,
    level: nat,
)
    requires
        covers(before, outside, indices, level),
        extends(after, before),
        after.wf(),
        tidy(after),
        V::dim_spec() >= 1,
        level <= LEVELS,
        0 <= i < indices.len(),
        indices[i].coords().len() == V::dim_spec(),
        candidate(indices[i].coords(), after.side_spec(), level),
        after.slots()[rank(parent_spec(indices[i].coords(), level), after.side_spec())].is_some(),
    ensures
        covers(after, outside, indices.update(i, indices.last()).drop_last(), level),
{
    let left = indices.update(i, indices.last()).drop_last();
    let side = after.side_spec();
    let cur = indices[i].coords();
    let p = parent_spec(cur, level);
    let at = rank(p, side);
    after.lemma_wf();
    lemma_candidate(cur, side, level);
    lemma_encode_inside(p, side, after.periodic());
    assert forall|x: Seq<int>| x.len() == V::dim_spec() && inside(x, side) implies #[trigger] settled(
        after,
        outside,
        left,
        level,
        x,
    ) by {
        assert(settled(before, outside, indices, level, x));
        if near_sample(before, x) || near_outside(
            outside,
            x,
            before.resolution_spec(),
            before.periodic(),
        ) {
            lemma_settled_extends(before, after, outside, left, level, x);
        } else {
            let c = choose|c: int|
                0 <= c < indices.len() && in_cell(x, (#[trigger] indices[c]).coords(), level);
            if c == i {
                let v = after.slots()[at].unwrap();
                lemma_in_parent(x, cur, level);
                assert(in_cell(v.coords(), p, 0));
                lemma_same_cell_near(v.coords(), x, p, after.resolution_spec(), after.periodic());
                assert(sample_near(after, at, x));
            } else if c == indices.len() - 1 {
                assert(left[i] == indices[c]);
            } else {
                assert(left[c] == indices[c]);
            }
        }
    }
}

/// A child that is not given up is among the survivors.
pub proof fn lemma_survivor<V: VecLike>(
    grid: &Grid<V>,
    outside: Seq<V>,
    index: Seq<int>,
    level: nat,
    count: nat,
    k: int,
) -> (j: int)
    requires
        0 <= k < count,
        !pruned(grid, outside, child(index, k), level + 1),
    ensures
        0 <= j < survivors(grid, outside, index, level, count).len(),
        survivors(grid, outside, index, level, count)[j] == child(index, k),
    decreases count,
{
    let rest = survivors(grid, outside, index, level, (count - 1) as nat);
    if k == count - 1 {
        rest.len() as int
    } else {
        lemma_survivor(grid, outside, index, level, (count - 1) as nat, k)
    }
}

/// The grid is one on which a cell whose corners are covered is covered
/// as a whole: the bounded cube, or a roomy torus.
pub open spec fn sound<V: VecLike>(grid: &Grid<V>) -> bool {
    !grid.periodic() || roomy(grid.resolution_spec(), V::dim_spec())
}

/// A point of a cell whose corners all lie within the disk around `v`
/// lies within that disk itself.
pub proof fn lemma_covered<V: VecLike>(
    grid: &Grid<V>,
    v: V,
    index: Seq<int>,
    level: nat,
    x: Seq<int>,
)
    requires
        sound(grid),
        index.len() == V::dim_spec(),
        in_cell(x, index, level),
        level <= LEVELS,
        cell_covered_by(v.coords(), index, level, grid.resolution_spec(), grid.periodic()),
    ensures
        !far(v.coords(), x, grid.resolution_spec(), grid.periodic()),
{
    v.lemma_dim();
    if grid.periodic() {
        lemma_covered_cell_torus(v.coords(), index, level, grid.resolution_spec(), x);
    } else {
        lemma_covered_cell(v.coords(), index, level, grid.resolution_spec(), x);
    }
}

/// Dividing the candidate cells loses no point: a child is given up only
/// where a sample or a given point is too near to every point of it.
pub proof fn lemma_divide_covers<V: VecLike>(
    grid: &Grid<V>,
    outside: Seq<V>,
    from: Seq<V>,
    level: nat,
    parts: Seq<Vec<V>>,
    to: Seq<V>,
)
    requires
        grid.wf(),
        sound(grid),
        V::dim_spec() >= 1,
        level < LEVELS,
        covers(grid, outside, from, level),
        divided(grid, outside, from, level, parts, to),
        forall|i: int| 0 <= i < from.len() ==> (#[trigger] from[i]).coords().len() == V::dim_spec(),
    ensures
        covers(grid, outside, to, level + 1),
{
    let unit = grid.resolution_spec();
    let periodic = grid.periodic();
    let total = combinations(corners(), V::dim_spec()) as nat;
    grid.lemma_wf();
    assert forall|x: Seq<int>|
        x.len() == V::dim_spec() && inside(x, grid.side_spec()) implies #[trigger] settled(
        grid,
        outside,
        to,
        level + 1,
        x,
    ) by {
        assert(settled(grid, outside, from, level, x));
        assert(0 <= x[0] < grid.side_spec() * CELL);
        if !near_sample(grid, x) && !near_outside(outside, x, unit, periodic) {
            let c = choose|c: int|
                0 <= c < from.len() && in_cell(x, (#[trigger] from[c]).coords(), level);
            let index = from[c].coords();
            let k = lemma_in_child(x, index, level);
            let ck = child(index, k);
            if covered_spec(grid, ck, level + 1) {
                let r = choose|r: int|
                    0 <= r < combinations(ring(), ck.len()) && #[trigger] covered_from(
                        grid,
                        ck,
                        level + 1,
                        r,
                    );
                let place = neighbour(parent_spec(ck, level + 1), r);
                lemma_encode_bound(place, grid.side_spec(), periodic);
                let at = encode_spec(place, grid.side_spec(), periodic).unwrap();
                let v = grid.slots()[at].unwrap();
                lemma_covered(grid, v, ck, level + 1, x);
                assert(sample_near(grid, at, x));
                assert(false);
            }
            if covered_by_outside_spec(outside, ck, level + 1, unit, periodic) {
                let o = choose|o: int|
                    0 <= o < outside.len() && cell_covered_by(
                        (#[trigger] outside[o]).coords(),
                        ck,
                        level + 1,
                        unit,
                        periodic,
                    );
                lemma_covered(grid, outside[o], ck, level + 1, x);
                assert(false);
            }
            let j = lemma_survivor(grid, outside, index, level, total, k);
            assert(coords_of(parts[c]@) == survivors(grid, outside, index, level, total));
            let e = parts[c]@[j];
            assert(coords_of(parts[c]@)[j] == e.coords());
            lemma_member_pooled(parts, c, j);
            vstd::seq_lib::to_multiset_contains(to, e);
            let at = choose|at: int| 0 <= at < to.len() && to[at] == e;
            assert(in_cell(x, to[at].coords(), level + 1));
        }
    }
}

} // verus!
