//! The cells around a cell, and the two questions asked of the samples in
//! them: does a point keep its distance from all of them, and does one of
//! them cover a whole candidate cell.

use vstd::prelude::*;
use vstd::arithmetic::power::pow;
use vstd::arithmetic::power2::{pow2, lemma_pow2_pos};
use vstd::arithmetic::div_mod::{lemma_fundamental_div_mod, lemma_mod_bound};
use crate::point::{VecLike, within, plus, plus_spec, scaled};
use crate::combination::{
    combination, combinations, each_combination, ints, lemma_combination_drawn,
};
use crate::grid::{sq_diameter, Grid, LEVELS, MAX_RESOLUTION};
use crate::index::{get_parent, parent_spec, lemma_encode_bound};
use crate::distance::{sqdist, sqdist_spec, far, all_far, all_within, is_valid, threshold};
use crate::random::{spacing, cell_within, cell_spacing};

verus! {

/// The offsets, along each axis, of the cells that are searched around a
/// cell.
pub open spec fn ring() -> Seq<int> {
    seq![-2, -1, 0, 1, 2]
}

/// The offsets, along each axis, of the corners of a cell and of its
/// children.
pub open spec fn corners() -> Seq<int> {
    seq![0, 1]
}

/// The coordinates of the `k`-th cell of the ring around the cell at `p`.
pub open spec fn neighbour(p: Seq<int>, k: int) -> Seq<int> {
    plus_spec(p, combination(ring(), k, p.len()))
}

/// The `k`-th cell of the ring around `p` holds no sample too close to `c`.
pub open spec fn clear_of<V: VecLike>(grid: &Grid<V>, p: Seq<int>, c: Seq<int>, k: int) -> bool {
    match grid.at(neighbour(p, k)) {
        Some(Some(v)) => far(v.coords(), c, grid.resolution_spec(), grid.periodic()),
        _ => true,
    }
}

/// No cell of the ring around `p` holds a sample too close to `c`.
pub open spec fn ring_free<V: VecLike>(grid: &Grid<V>, p: Seq<int>, c: Seq<int>) -> bool {
    forall|k: int| 0 <= k < combinations(ring(), p.len()) ==> #[trigger] clear_of(grid, p, c, k)
}

/// The `k`-th corner of the cell at `index` of level `level`.
pub open spec fn corner(index: Seq<int>, level: nat, k: int) -> Seq<int> {
    Seq::new(
        index.len(),
        |n: int| (index[n] + combination(corners(), k, index.len())[n]) * spacing(level),
    )
}

/// The `k`-th corner of the cell lies within the disk around `v`.
pub open spec fn corner_near(
    v: Seq<int>,
    index: Seq<int>,
    level: nat,
    unit: int,
    periodic: bool,
    k: int,
) -> bool {
    sqdist_spec(corner(index, level, k), v, unit, periodic) < sq_diameter(index.len())
}

/// Every corner of the cell at `index` of level `level` lies within the
/// disk around `v`, so that no point of the cell can become a sample.
pub open spec fn cell_covered_by(
    v: Seq<int>,
    index: Seq<int>,
    level: nat,
    unit: int,
    periodic: bool,
) -> bool {
    forall|k: int|
        0 <= k < combinations(corners(), index.len()) ==> #[trigger] corner_near(
            v,
            index,
            level,
            unit,
            periodic,
            k,
        )
}

/// The `k`-th cell of the ring around the parent of the cell holds a sample
/// that covers the cell.
pub open spec fn covered_from<V: VecLike>(
    grid: &Grid<V>,
    index: Seq<int>,
    level: nat,
    k: int,
) -> bool {
    match grid.at(neighbour(parent_spec(index, level), k)) {
        Some(Some(v)) => cell_covered_by(
            v.coords(),
            index,
            level,
            grid.resolution_spec(),
            grid.periodic(),
        ),
        _ => false,
    }
}

/// Some sample in the ring around the parent of the cell covers the cell.
pub open spec fn covered_spec<V: VecLike>(grid: &Grid<V>, index: Seq<int>, level: nat) -> bool {
    exists|k: int|
        0 <= k < combinations(ring(), index.len()) && #[trigger] covered_from(grid, index, level, k)
}

/// Coarsening brings a cell no further from the origin.
pub proof fn lemma_parent_within(c: Seq<int>, level: nat, bound: int)
    requires
        within(c, bound),
        bound >= 1,
    ensures
        within(parent_spec(c, level), bound),
        parent_spec(c, level).len() == c.len(),
{
    lemma_pow2_pos(level);
    let p = pow2(level) as int;
    assert forall|i: int| 0 <= i < c.len() implies -bound <= #[trigger] parent_spec(c, level)[i]
        <= bound by {
        let x = c[i];
        assert(-bound <= x <= bound);
        lemma_fundamental_div_mod(x, p);
        lemma_mod_bound(x, p);
        assert(-bound <= x / p <= bound) by (nonlinear_arith)
            requires
                x == p * (x / p) + x % p,
                0 <= x % p < p,
                p >= 1,
                -bound <= x <= bound,
                bound >= 1,
        ;
    }
}

/// The cell of the ring around `parent` that `t` points to, and what the
/// grid holds there.
fn look<'a, V: VecLike>(grid: &'a Grid<V>, parent: V, t: V, k: Ghost<int>) -> (r: Option<V>)
    requires
        grid.wf(),
        grid.bounded(),
        grid.periodic() ==> grid.side_spec() > 0,
        within(parent.coords(), MAX_RESOLUTION as int),
        t.coords() == combination(ring(), k@, V::dim_spec()),
    ensures
        match r {
            Some(v) => grid.at(neighbour(parent.coords(), k@)) == Some(Some(v)) && within(
                v.coords(),
                MAX_RESOLUTION as int,
            ),
            None => match grid.at(neighbour(parent.coords(), k@)) {
                Some(Some(v)) => false,
                _ => true,
            },
        },
{
    proof {
        parent.lemma_dim();
        t.lemma_dim();
        lemma_combination_drawn(ring(), k@, V::dim_spec());
        assert forall|i: int| 0 <= i < V::dim_spec() implies i128::MIN
            <= #[trigger] parent.coords()[i] + t.coords()[i] <= i128::MAX by {
            assert(ring().contains(t.coords()[i]));
            assert(-MAX_RESOLUTION <= parent.coords()[i] <= MAX_RESOLUTION);
        }
    }
    let place = plus(parent, t);
    match grid.get(place) {
        Some(slot) => {
            proof {
                grid.lemma_wf();
                place.lemma_dim();
                lemma_encode_bound(place.coords(), grid.side_spec(), grid.periodic());
            }
            match slot {
                Some(v) => Some(*v),
                None => None,
            }
        },
        None => None,
    }
}

/// Whether `sample`, a point of the cell at `index` of level `level`, keeps
/// its distance from every sample in the ring around that cell's parent and
/// from every point of `outside`.
pub fn is_disk_free<V: VecLike>(
    grid: &Grid<V>,
    index: V,
    level: usize,
    sample: V,
    outside: &[V],
) -> (r: bool)
    requires
        grid.wf(),
        grid.bounded(),
        grid.periodic() ==> grid.side_spec() > 0,
        combinations(ring(), V::dim_spec()) <= usize::MAX,
        within(index.coords(), MAX_RESOLUTION as int),
        within(sample.coords(), MAX_RESOLUTION as int),
        all_within(outside@),
    ensures
        r == (ring_free(grid, parent_spec(index.coords(), level as nat), sample.coords())
            && all_far(outside@, sample.coords(), grid.resolution_spec(), grid.periodic())),
{
    proof {
        index.lemma_dim();
        sample.lemma_dim();
        grid.lemma_wf();
        lemma_parent_within(index.coords(), level as nat, MAX_RESOLUTION as int);
        crate::bounds::lemma_feasible(V::dim_spec());
    }
    let parent = get_parent(index, level);
    let limit = threshold::<V>();
    let resolution = grid.resolution();
    let periodicity = grid.periodicity();
    let choices: [i128; 5] = [-2, -1, 0, 1, 2];
    let mut it = each_combination::<V>(choices.as_slice());
    proof {
        assert(ints(choices@) =~= ring());
    }
    let ghost p = parent.coords();
    let ghost c = sample.coords();
    let ghost total = combinations(ring(), V::dim_spec());
    let ghost mut done: int = 0;
    let mut next = it.next();
    while next.is_some()
        invariant
            it.wf(),
            it.choices() == ring(),
            grid.wf(),
            grid.bounded(),
            grid.periodic() ==> grid.side_spec() > 0,
            resolution == grid.resolution_spec(),
            periodicity == grid.periodic(),
            0 <= resolution <= MAX_RESOLUTION,
            pow(3, V::dim_spec()) <= usize::MAX,
            limit == sq_diameter(V::dim_spec()),
            total == combinations(ring(), V::dim_spec()),
            p == parent.coords(),
            p == parent_spec(index.coords(), level as nat),
            p.len() == V::dim_spec(),
            c == sample.coords(),
            c.len() == V::dim_spec(),
            within(p, MAX_RESOLUTION as int),
            within(c, MAX_RESOLUTION as int),
            0 <= done <= total,
            match next {
                Some(t) => {
                    &&& done < total
                    &&& it.position() == done + 1
                    &&& t.coords() == combination(ring(), done, V::dim_spec())
                },
                None => done == total && it.position() == done,
            },
            forall|k: int| 0 <= k < done ==> #[trigger] clear_of(grid, p, c, k),
        decreases total - done,
    {
        let t = next.unwrap();
        match look(grid, parent, t, Ghost(done)) {
            Some(v) => {
                proof {
                    v.lemma_dim();
                }
                if sqdist(v, sample, resolution, periodicity) < limit {
                    proof {
                        assert(!clear_of(grid, p, c, done));
                    }
                    return false;
                }
            },
            None => {},
        }
        proof {
            assert(clear_of(grid, p, c, done));
            done = done + 1;
        }
        next = it.next();
    }
    is_valid(outside, sample, resolution, periodicity)
}

/// The corner of the cell at `index` that `t` points to, where a cell is
/// `width` lattice steps wide.
fn corner_at<V: VecLike>(index: V, t: V, width: i128, level: Ghost<nat>, k: Ghost<int>) -> (r: V)
    requires
        level@ <= LEVELS,
        width == spacing(level@),
        cell_within(index.coords(), level@),
        t.coords() == combination(corners(), k@, V::dim_spec()),
    ensures
        r.coords() == corner(index.coords(), level@, k@),
        within(r.coords(), MAX_RESOLUTION as int),
{
    proof {
        index.lemma_dim();
        t.lemma_dim();
        lemma_combination_drawn(corners(), k@, V::dim_spec());
        lemma_pow2_pos((LEVELS - level@) as nat);
        assert forall|n: int| 0 <= n < V::dim_spec() implies {
            let x = #[trigger] index.coords()[n];
            let e = x + t.coords()[n];
            &&& -MAX_RESOLUTION <= x <= MAX_RESOLUTION
            &&& 0 <= t.coords()[n] <= 1
            &&& -MAX_RESOLUTION <= e * width <= MAX_RESOLUTION
        } by {
            let x = index.coords()[n];
            let w = width as int;
            assert(corners().contains(t.coords()[n]));
            assert(-MAX_RESOLUTION <= x * w && (x + 1) * w <= MAX_RESOLUTION);
            assert((x + 1) * w == x * w + w) by (nonlinear_arith);
            assert(-MAX_RESOLUTION <= x <= MAX_RESOLUTION) by (nonlinear_arith)
                requires
                    -MAX_RESOLUTION <= x * w,
                    x * w + w <= MAX_RESOLUTION,
                    w >= 1,
            ;
        }
    }
    let end = plus(index, t);
    proof {
        assert forall|n: int| 0 <= n < V::dim_spec() implies -MAX_RESOLUTION <= (
        #[trigger] end.coords()[n]) * width <= MAX_RESOLUTION by {
            assert(end.coords()[n] == index.coords()[n] + t.coords()[n]);
        }
    }
    let r = scaled(end, width);
    proof {
        assert(r.coords() =~= corner(index.coords(), level@, k@));
        assert forall|n: int| 0 <= n < r.coords().len() implies -MAX_RESOLUTION
            <= #[trigger] r.coords()[n] <= MAX_RESOLUTION by {
            assert(r.coords()[n] == end.coords()[n] * width);
        }
    }
    r
}

/// Whether the disk around `v` reaches every corner of the cell at `index`
/// of level `level`.
pub fn is_cell_covered<V: VecLike>(v: &V, index: V, grid: &Grid<V>, level: usize) -> (r: bool)
    requires
        grid.wf(),
        level <= LEVELS,
        cell_within(index.coords(), level as nat),
        within(v.coords(), MAX_RESOLUTION as int),
        combinations(corners(), V::dim_spec()) <= usize::MAX,
        grid.periodic() ==> pow(3, V::dim_spec()) <= usize::MAX,
        sq_diameter(V::dim_spec()) <= u128::MAX,
    ensures
        r == cell_covered_by(
            v.coords(),
            index.coords(),
            level as nat,
            grid.resolution_spec(),
            grid.periodic(),
        ),
{
    proof {
        index.lemma_dim();
        v.lemma_dim();
        grid.lemma_wf();
        lemma_pow2_pos((LEVELS - level) as nat);
    }
    let width = cell_spacing(grid, level);
    let limit = threshold::<V>();
    let resolution = grid.resolution();
    let periodicity = grid.periodicity();
    let choices: [i128; 2] = [0, 1];
    let mut it = each_combination::<V>(choices.as_slice());
    proof {
        assert(ints(choices@) =~= corners());
    }
    let ghost total = combinations(corners(), V::dim_spec());
    let ghost mut done: int = 0;
    let mut next = it.next();
    while next.is_some()
        invariant
            it.wf(),
            it.choices() == corners(),
            resolution == grid.resolution_spec(),
            periodicity == grid.periodic(),
            0 <= resolution <= MAX_RESOLUTION,
            periodicity ==> pow(3, V::dim_spec()) <= usize::MAX,
            limit == sq_diameter(V::dim_spec()),
            level <= LEVELS,
            width == spacing(level as nat),
            cell_within(index.coords(), level as nat),
            within(v.coords(), MAX_RESOLUTION as int),
            index.coords().len() == V::dim_spec(),
            total == combinations(corners(), V::dim_spec()),
            0 <= done <= total,
            match next {
                Some(t) => {
                    &&& done < total
                    &&& it.position() == done + 1
                    &&& t.coords() == combination(corners(), done, V::dim_spec())
                },
                None => done == total && it.position() == done,
            },
            forall|k: int|
                0 <= k < done ==> #[trigger] corner_near(
                    v.coords(),
                    index.coords(),
                    level as nat,
                    resolution as int,
                    periodicity,
                    k,
                ),
        decreases total - done,
    {
        let t = next.unwrap();
        let point = corner_at(index, t, width, Ghost(level as nat), Ghost(done));
        if sqdist(point, *v, resolution, periodicity) >= limit {
            proof {
                assert(!corner_near(
                    v.coords(),
                    index.coords(),
                    level as nat,
                    resolution as int,
                    periodicity,
                    done,
                ));
            }
            return false;
        }
        proof {
            done = done + 1;
        }
        next = it.next();
    }
    true
}

/// Whether some sample in the ring around the parent of the cell at `index`
/// of level `level` covers the whole cell.
pub fn covered<V: VecLike>(grid: &Grid<V>, index: V, level: usize) -> (r: bool)
    requires
        grid.wf(),
        grid.bounded(),
        grid.periodic() ==> grid.side_spec() > 0,
        level <= LEVELS,
        combinations(ring(), V::dim_spec()) <= usize::MAX,
        within(index.coords(), MAX_RESOLUTION as int),
        cell_within(index.coords(), level as nat),
    ensures
        r == covered_spec(grid, index.coords(), level as nat),
{
    proof {
        index.lemma_dim();
        grid.lemma_wf();
        lemma_parent_within(index.coords(), level as nat, MAX_RESOLUTION as int);
        crate::bounds::lemma_feasible(V::dim_spec());
    }
    let parent = get_parent(index, level);
    let choices: [i128; 5] = [-2, -1, 0, 1, 2];
    let mut it = each_combination::<V>(choices.as_slice());
    proof {
        assert(ints(choices@) =~= ring());
        assert(combinations(corners(), V::dim_spec()) == pow(2, V::dim_spec()));
    }
    let ghost p = parent.coords();
    let ghost total = combinations(ring(), V::dim_spec());
    let ghost mut done: int = 0;
    let mut next = it.next();
    while next.is_some()
        invariant
            it.wf(),
            it.choices() == ring(),
            grid.wf(),
            grid.bounded(),
            grid.periodic() ==> grid.side_spec() > 0,
            level <= LEVELS,
            pow(3, V::dim_spec()) <= usize::MAX,
            combinations(corners(), V::dim_spec()) <= usize::MAX,
            sq_diameter(V::dim_spec()) <= u128::MAX,
            total == combinations(ring(), V::dim_spec()),
            p == parent.coords(),
            p == parent_spec(index.coords(), level as nat),
            p.len() == V::dim_spec(),
            index.coords().len() == V::dim_spec(),
            within(p, MAX_RESOLUTION as int),
            cell_within(index.coords(), level as nat),
            0 <= done <= total,
            match next {
                Some(t) => {
                    &&& done < total
                    &&& it.position() == done + 1
                    &&& t.coords() == combination(ring(), done, V::dim_spec())
                },
                None => done == total && it.position() == done,
            },
            forall|k: int|
                0 <= k < done ==> !#[trigger] covered_from(grid, index.coords(), level as nat, k),
        decreases total - done,
    {
        let t = next.unwrap();
        match look(grid, parent, t, Ghost(done)) {
            Some(v) => {
                if is_cell_covered(&v, index, grid, level) {
                    proof {
                        assert(covered_from(grid, index.coords(), level as nat, done));
                    }
                    return true;
                }
            },
            None => {},
        }
        proof {
            assert(!covered_from(grid, index.coords(), level as nat, done));
            done = done + 1;
        }
        next = it.next();
    }
    false
}

/// Some point of `outside` covers the cell at `index` of level `level`.
pub open spec fn covered_by_outside_spec<V: VecLike>(
    outside: Seq<V>,
    index: Seq<int>,
    level: nat,
    unit: int,
    periodic: bool,
) -> bool {
    exists|i: int|
        0 <= i < outside.len() && cell_covered_by(
            (#[trigger] outside[i]).coords(),
            index,
            level,
            unit,
            periodic,
        )
}

/// Whether some point of `outside` covers the whole cell at `index` of
/// level `level`.
pub fn covered_by_outside<V: VecLike>(
    outside: &[V],
    index: V,
    grid: &Grid<V>,
    level: usize,
) -> (r: bool)
    requires
        grid.wf(),
        level <= LEVELS,
        all_within(outside@),
        cell_within(index.coords(), level as nat),
        combinations(corners(), V::dim_spec()) <= usize::MAX,
        grid.periodic() ==> pow(3, V::dim_spec()) <= usize::MAX,
        sq_diameter(V::dim_spec()) <= u128::MAX,
    ensures
        r == covered_by_outside_spec(
            outside@,
            index.coords(),
            level as nat,
            grid.resolution_spec(),
            grid.periodic(),
        ),
{
    let mut i: usize = 0;
    while i < outside.len()
        invariant
            i <= outside@.len(),
            grid.wf(),
            level <= LEVELS,
            all_within(outside@),
            cell_within(index.coords(), level as nat),
            combinations(corners(), V::dim_spec()) <= usize::MAX,
            grid.periodic() ==> pow(3, V::dim_spec()) <= usize::MAX,
            sq_diameter(V::dim_spec()) <= u128::MAX,
            forall|j: int|
                0 <= j < i ==> !cell_covered_by(
                    (#[trigger] outside@[j]).coords(),
                    index.coords(),
                    level as nat,
                    grid.resolution_spec(),
                    grid.periodic(),
                ),
        decreases outside@.len() - i,
    {
        if is_cell_covered(&outside[i], index, grid, level) {
            return true;
        }
        i += 1;
    }
    false
}

/// The cell at `index` of level `level` is given up: a sample of the grid
/// or a point of `outside` covers it.
pub open spec fn pruned<V: VecLike>(
    grid: &Grid<V>,
    outside: Seq<V>,
    index: Seq<int>,
    level: nat,
) -> bool {
    covered_spec(grid, index, level) || covered_by_outside_spec(
        outside,
        index,
        level,
        grid.resolution_spec(),
        grid.periodic(),
    )
}

} // verus!
