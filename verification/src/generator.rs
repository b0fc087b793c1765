//! The sampler: darts thrown at candidate cells, level after level, until
//! no candidate is left.

use vstd::prelude::*;
use vstd::arithmetic::power::pow;
use vstd::arithmetic::power2::pow2;
use rand::rngs::StdRng;
use crate::point::{VecLike, within, plus, scaled};
use crate::combination::{
    combination, combinations, each_combination, ints, lemma_combination_drawn,
};
use crate::distance::{all_far, all_within};
use crate::grid::{Grid, CELL, LEVELS, MAX_RESOLUTION};
use crate::index::parent_spec;
use crate::radix::rank;
use crate::random::{choose_random_sample, random_index, in_cell};
use crate::ring::{is_disk_free, covered, covered_by_outside, pruned, ring, corners, ring_free};
use crate::state::{
    inside, candidate, candidates_valid, grid_ok, extends, vacant, inhabited, lemma_candidate,
    lemma_accept, lemma_encode_inside, lemma_child_candidate,
};
use crate::inplace::{Inplace, gathers, pooled, lemma_pooled_member};
use crate::cover::{covers, sound, lemma_drop_covered, lemma_divide_covers};

verus! {

/// Of every ten candidate cells of a level, the number of darts thrown
/// before the cells are divided.
pub const THROWS_PER_TEN: usize = 3;

/// The number of darts thrown at `candidates` cells: three tenths of
/// them, rounded up.
pub open spec fn throws_spec(candidates: int) -> int {
    (THROWS_PER_TEN * candidates + 9) / 10
}

/// The number of darts thrown at `candidates` cells.
pub fn throws(candidates: usize) -> (n: usize)
    ensures
        n == throws_spec(candidates as int),
        n <= candidates,
        candidates > 0 ==> n > 0,
{
    let tens = candidates / 10;
    let rest = candidates % 10;
    tens * 3 + (rest * 3 + 9) / 10
}

/// The candidates without the one at place `i`: the last one has taken its
/// place.
pub open spec fn without<V>(indices: Seq<V>, i: int) -> Seq<V> {
    indices.update(i, indices.last()).drop_last()
}

/// The flat index of the top-level cell that holds the cell at `cur` of
/// level `level`.
pub open spec fn home(cur: Seq<int>, side: int, level: nat) -> int {
    rank(parent_spec(cur, level), side)
}

/// The point `sample` of the cell at `cur` passes the search: it keeps its
/// distance from the samples around its cell and from the points of
/// `outside`.
pub open spec fn passes<V: VecLike>(
    grid: &Grid<V>,
    outside: Seq<V>,
    cur: Seq<int>,
    level: nat,
    sample: Seq<int>,
) -> bool {
    ring_free(grid, parent_spec(cur, level), sample) && all_far(
        outside,
        sample,
        grid.resolution_spec(),
        grid.periodic(),
    )
}

/// The grids `a` and `b` differ in nothing but what their slots hold.
pub open spec fn same_shape<V: VecLike>(a: &Grid<V>, b: &Grid<V>) -> bool {
    &&& a.side_spec() == b.side_spec()
    &&& a.resolution_spec() == b.resolution_spec()
    &&& a.periodic() == b.periodic()
    &&& a.slots().len() == b.slots().len()
}

/// What a dart at the candidate at place `index` makes of the grid
/// `before` and of `candidates`, where `sample` is the point drawn: the
/// grid `after` and the candidates `left`.
///
/// A cell whose top-level cell holds a sample is dropped, and nothing is
/// drawn. Else the point drawn, a point of the cell, becomes the sample of
/// the top-level cell if it passes the search, and the cell is dropped.
/// Else nothing changes.
pub open spec fn struck<V: VecLike>(
    before: &Grid<V>,
    candidates: Seq<V>,
    after: &Grid<V>,
    left: Seq<V>,
    outside: Seq<V>,
    level: nat,
    index: int,
    sample: V,
) -> bool {
    let cur = candidates[index].coords();
    let at = home(cur, before.side_spec(), level);
    &&& 0 <= index < candidates.len()
    &&& same_shape(after, before)
    &&& if before.slots()[at].is_some() {
        after.slots() == before.slots() && left == without(candidates, index)
    } else if passes(before, outside, cur, level, sample.coords()) {
        &&& in_cell(sample.coords(), cur, level)
        &&& after.slots() == before.slots().update(at, Some(sample))
        &&& left == without(candidates, index)
    } else {
        &&& in_cell(sample.coords(), cur, level)
        &&& after.slots() == before.slots()
        &&& left == candidates
    }
}

/// One dart leads from the grid `before` and `candidates` to the grid
/// `after` and the candidates `left`.
pub open spec fn thrown<V: VecLike>(
    before: &Grid<V>,
    candidates: Seq<V>,
    after: &Grid<V>,
    left: Seq<V>,
    outside: Seq<V>,
    level: nat,
) -> bool {
    exists|index: int, sample: V|
        #[trigger] struck(before, candidates, after, left, outside, level, index, sample)
}

/// The `n`-th dart of a pass leads from the `n`-th grid and candidates to
/// the next.
pub open spec fn step<V: VecLike>(
    grids: Seq<Grid<V>>,
    lists: Seq<Seq<V>>,
    outside: Seq<V>,
    level: nat,
    n: int,
) -> bool {
    thrown(&grids[n], lists[n], &grids[n + 1], lists[n + 1], outside, level)
}

/// The grids and the lists of candidates that a pass of darts went
/// through, one dart leading from each to the next.
pub open spec fn pass<V: VecLike>(
    grids: Seq<Grid<V>>,
    lists: Seq<Seq<V>>,
    outside: Seq<V>,
    level: nat,
) -> bool {
    &&& grids.len() >= 1
    &&& lists.len() == grids.len()
    &&& forall|n: int| 0 <= n < grids.len() - 1 ==> #[trigger] step(grids, lists, outside, level, n)
}

/// A grid that holds what a grid that the sampler works on holds is one
/// that the sampler works on, and accounts for the same points.
pub proof fn lemma_same_slots<V: VecLike>(
    a: &Grid<V>,
    b: &Grid<V>,
    given: Set<int>,
    outside: Seq<V>,
    indices: Seq<V>,
    level: nat,
)
    requires
        grid_ok(a, given, outside),
        b.wf(),
        same_shape(b, a),
        b.slots() == a.slots(),
    ensures
        grid_ok(b, given, outside),
        extends(b, a),
        covers(a, outside, indices, level) ==> covers(b, outside, indices, level),
        vacant(a) ==> vacant(b),
{
    assert forall|i: int, j: int|
        0 <= i < b.slots().len() && 0 <= j < b.slots().len() && i != j && !(given.contains(i)
            && given.contains(j)) && crate::state::separated(a, given) implies #[trigger] crate::state::pair_apart(
        b,
        i,
        j,
    ) by {
        assert(crate::state::pair_apart(a, i, j));
    }
    if covers(a, outside, indices, level) {
        assert forall|x: Seq<int>|
            x.len() == V::dim_spec() && inside(x, b.side_spec()) implies #[trigger] crate::cover::settled(
            b,
            outside,
            indices,
            level,
            x,
        ) by {
            assert(crate::cover::settled(a, outside, indices, level, x));
            if crate::cover::near_sample(a, x) {
                let i = choose|i: int|
                    0 <= i < a.slots().len() && #[trigger] crate::cover::sample_near(a, i, x);
                assert(crate::cover::sample_near(b, i, x));
            }
        }
    }
}

/// What the functions that search the grid for a candidate ask of it.
pub open spec fn searchable<V: VecLike>(grid: &Grid<V>) -> bool {
    &&& grid.wf()
    &&& grid.bounded()
    &&& V::dim_spec() >= 1
    &&& combinations(ring(), V::dim_spec()) <= usize::MAX
}

/// A grid that holds a candidate cell has cells.
pub proof fn lemma_candidate_side<V: VecLike>(index: V, side: int, level: nat)
    requires
        V::dim_spec() >= 1,
        side >= 0,
        candidate(index.coords(), side, level),
    ensures
        side > 0,
{
    index.lemma_dim();
    assert(0 <= index.coords()[0] < side * pow2(level));
    assert(side > 0) by (nonlinear_arith)
        requires
            0 < side * pow2(level),
            side >= 0,
    ;
}

/// Whether the top-level cell of the candidate cell at `index` holds a
/// sample.
pub fn parent_taken<V: VecLike>(grid: &Grid<V>, index: V, level: usize) -> (taken: bool)
    requires
        grid.wf(),
        V::dim_spec() >= 1,
        level <= LEVELS,
        candidate(index.coords(), grid.side_spec(), level as nat),
    ensures
        0 <= home(index.coords(), grid.side_spec(), level as nat) < grid.slots().len(),
        taken == grid.slots()[home(index.coords(), grid.side_spec(), level as nat)].is_some(),
{
    proof {
        index.lemma_dim();
        grid.lemma_wf();
        lemma_candidate(index.coords(), grid.side_spec(), level as nat);
        lemma_encode_inside(
            parent_spec(index.coords(), level as nat),
            grid.side_spec(),
            grid.periodic(),
        );
        lemma_candidate_side(index, grid.side_spec(), level as nat);
    }
    let parent = grid.get_parent(index, level);
    match grid.get(parent) {
        Some(slot) => slot.is_some(),
        None => true,
    }
}

/// A dart that has hit the candidate at place `index`, whose top-level
/// cell is empty, at the point `sample`: if the point passes the search it
/// becomes the sample of the top-level cell and the candidate is dropped;
/// else nothing changes. Says whether the point became a sample.
pub fn land<V: VecLike>(
    grid: &mut Grid<V>,
    indices: &mut Vec<V>,
    level: usize,
    outside: &[V],
    index: usize,
    sample: V,
) -> (placed: bool)
    requires
        searchable(old(grid)),
        all_within(outside@),
        level <= LEVELS,
        index < old(indices)@.len(),
        candidate(old(indices)@[index as int].coords(), old(grid).side_spec(), level as nat),
        in_cell(sample.coords(), old(indices)@[index as int].coords(), level as nat),
        within(sample.coords(), MAX_RESOLUTION as int),
        old(grid).slots()[home(
            old(indices)@[index as int].coords(),
            old(grid).side_spec(),
            level as nat,
        )].is_none(),
    ensures
        final(grid).wf(),
        placed == passes(
            old(grid),
            outside@,
            old(indices)@[index as int].coords(),
            level as nat,
            sample.coords(),
        ),
        struck(
            old(grid),
            old(indices)@,
            final(grid),
            final(indices)@,
            outside@,
            level as nat,
            index as int,
            sample,
        ),
{
    let cur = indices[index];
    proof {
        cur.lemma_dim();
        grid.lemma_wf();
        lemma_candidate(cur.coords(), grid.side_spec(), level as nat);
        lemma_encode_inside(
            parent_spec(cur.coords(), level as nat),
            grid.side_spec(),
            grid.periodic(),
        );
        lemma_candidate_side(cur, grid.side_spec(), level as nat);
    }
    if is_disk_free(grid, cur, level, sample, outside) {
        let parent = grid.get_parent(cur, level);
        match grid.get_mut(parent) {
            Some(slot) => {
                *slot = Some(sample);
            },
            None => {},
        }
        indices.swap_remove(index);
        true
    } else {
        false
    }
}

/// One dart: picks a candidate cell at random. A cell whose top-level cell
/// holds a sample is dropped; else a random point of the cell becomes a
/// sample if it passes the search around it, and the cell is dropped; else
/// the cell stays.
pub(crate) fn throw<V: VecLike>(
    rng: &mut StdRng,
    grid: &mut Grid<V>,
    indices: &mut Vec<V>,
    level: usize,
    outside: &[V],
    given: Ghost<Set<int>>,
)
    requires
        grid_ok(old(grid), given@, outside@),
        candidates_valid(old(indices)@, old(grid).side_spec(), level as nat),
        old(indices)@.len() > 0,
        level <= LEVELS,
    ensures
        thrown(old(grid), old(indices)@, final(grid), final(indices)@, outside@, level as nat),
        grid_ok(final(grid), given@, outside@),
        extends(final(grid), old(grid)),
        candidates_valid(final(indices)@, final(grid).side_spec(), level as nat),
        final(indices)@.len() <= old(indices)@.len(),
        vacant(old(grid)) && outside@.len() == 0 ==> inhabited(final(grid)),
        covers(old(grid), outside@, old(indices)@, level as nat) ==> covers(
            final(grid),
            outside@,
            final(indices)@,
            level as nat,
        ),
{
    let ghost before = *grid;
    let index = random_index(rng, indices.len());
    let cur = indices[index];
    proof {
        cur.lemma_dim();
        grid.lemma_wf();
        lemma_candidate(cur.coords(), grid.side_spec(), level as nat);
        lemma_encode_inside(
            parent_spec(cur.coords(), level as nat),
            grid.side_spec(),
            grid.periodic(),
        );
        lemma_candidate_side(cur, grid.side_spec(), level as nat);
    }
    if parent_taken(grid, cur, level) {
        indices.swap_remove(index);
        proof {
            assert(struck(
                &before,
                old(indices)@,
                grid,
                indices@,
                outside@,
                level as nat,
                index as int,
                cur,
            ));
            lemma_swap_remove_valid(old(indices)@, index as int, grid.side_spec(), level as nat);
            if covers(&before, outside@, old(indices)@, level as nat) {
                lemma_drop_covered(
                    &before,
                    grid,
                    outside@,
                    old(indices)@,
                    index as int,
                    level as nat,
                );
            }
        }
    } else {
        let sample = choose_random_sample(rng, grid, cur, level);
        let placed = land(grid, indices, level, outside, index, sample);
        proof {
            assert(struck(
                &before,
                old(indices)@,
                grid,
                indices@,
                outside@,
                level as nat,
                index as int,
                sample,
            ));
            if placed {
                lemma_accept(&before, grid, given@, outside@, cur.coords(), level as nat, sample);
                let at = home(cur.coords(), before.side_spec(), level as nat);
                assert(grid.slots()[at].is_some());
                lemma_swap_remove_valid(old(indices)@, index as int, grid.side_spec(), level as nat);
                if covers(&before, outside@, old(indices)@, level as nat) {
                    lemma_drop_covered(
                        &before,
                        grid,
                        outside@,
                        old(indices)@,
                        index as int,
                        level as nat,
                    );
                }
            } else {
                lemma_same_slots(&before, grid, given@, outside@, indices@, level as nat);
                if vacant(&before) && outside@.len() == 0 {
                    let parent = parent_spec(cur.coords(), level as nat);
                    lemma_vacant_free(&before, parent, sample.coords());
                }
            }
        }
    }
}

/// Dropping one candidate leaves candidates.
pub proof fn lemma_swap_remove_valid<V: VecLike>(indices: Seq<V>, i: int, side: int, level: nat)
    requires
        candidates_valid(indices, side, level),
        0 <= i < indices.len(),
    ensures
        candidates_valid(indices.update(i, indices.last()).drop_last(), side, level),
{
    let after = indices.update(i, indices.last()).drop_last();
    assert forall|j: int| 0 <= j < after.len() implies candidate(
        #[trigger] after[j].coords(),
        side,
        level,
    ) by {
        if j == i {
            assert(after[j] == indices[indices.len() - 1]);
        } else {
            assert(after[j] == indices[j]);
        }
    }
}

/// In a grid without samples every point passes the search.
pub proof fn lemma_vacant_free<V: VecLike>(grid: &Grid<V>, p: Seq<int>, c: Seq<int>)
    requires
        grid.wf(),
        vacant(grid),
        grid.periodic() ==> grid.side_spec() > 0,
        p.len() == V::dim_spec(),
    ensures
        ring_free(grid, p, c),
{
    grid.lemma_wf();
    assert forall|k: int| 0 <= k < combinations(ring(), p.len()) implies #[trigger] crate::ring::clear_of(
        grid,
        p,
        c,
        k,
    ) by {
        let n = crate::ring::neighbour(p, k);
        crate::index::lemma_encode_bound(n, grid.side_spec(), grid.periodic());
        assert(n.len() == p.len());
    }
}

/// One pass of darts over the candidate cells of a level: three tenths
/// as many darts as there are cells, or fewer if the cells run out. Says
/// whether any cell is left.
pub(crate) fn throw_samples<V: VecLike>(
    rng: &mut StdRng,
    grid: &mut Grid<V>,
    indices: &mut Vec<V>,
    level: usize,
    outside: &[V],
    given: Ghost<Set<int>>,
) -> (more: bool)
    requires
        grid_ok(old(grid), given@, outside@),
        candidates_valid(old(indices)@, old(grid).side_spec(), level as nat),
        old(indices)@.len() > 0,
        level <= LEVELS,
    ensures
        exists|grids: Seq<Grid<V>>, lists: Seq<Seq<V>>|
            {
                &&& #[trigger] pass(grids, lists, outside@, level as nat)
                &&& grids.first() == *old(grid) && lists.first() == old(indices)@
                &&& grids.last() == *final(grid) && lists.last() == final(indices)@
                &&& grids.len() - 1 <= throws_spec(old(indices)@.len() as int)
                &&& grids.len() - 1 == throws_spec(old(indices)@.len() as int)
                    || final(indices)@.len() == 0
            },
        grid_ok(final(grid), given@, outside@),
        extends(final(grid), old(grid)),
        candidates_valid(final(indices)@, final(grid).side_spec(), level as nat),
        final(indices)@.len() <= old(indices)@.len(),
        more == (final(indices)@.len() > 0),
        vacant(old(grid)) && outside@.len() == 0 ==> inhabited(final(grid)),
        covers(old(grid), outside@, old(indices)@, level as nat) ==> covers(
            final(grid),
            outside@,
            final(indices)@,
            level as nat,
        ),
{
    let darts = throws(indices.len());
    let mut thrown: usize = 0;
    let ghost mut grids: Seq<Grid<V>> = seq![*grid];
    let ghost mut lists: Seq<Seq<V>> = seq![indices@];
    while thrown < darts
        invariant
            thrown <= darts,
            darts > 0,
            darts == throws_spec(old(indices)@.len() as int),
            pass(grids, lists, outside@, level as nat),
            grids.len() == thrown + 1,
            grids.first() == *old(grid) && lists.first() == old(indices)@,
            grids.last() == *grid && lists.last() == indices@,
            grid_ok(grid, given@, outside@),
            extends(grid, old(grid)),
            candidates_valid(indices@, grid.side_spec(), level as nat),
            0 < indices@.len() <= old(indices)@.len(),
            level <= LEVELS,
            vacant(old(grid)) && outside@.len() == 0 ==> (thrown == 0 && vacant(grid))
                || inhabited(grid),
            covers(old(grid), outside@, old(indices)@, level as nat) ==> covers(
                grid,
                outside@,
                indices@,
                level as nat,
            ),
        decreases darts - thrown,
    {
        let ghost before = *grid;
        let ghost between = indices@;
        throw(rng, grid, indices, level, outside, given);
        proof {
            let grown = grids.push(*grid);
            let longer = lists.push(indices@);
            assert forall|n: int| 0 <= n < grown.len() - 1 implies #[trigger] step(
                grown,
                longer,
                outside@,
                level as nat,
                n,
            ) by {
                if n < grids.len() - 1 {
                    assert(step(grids, lists, outside@, level as nat, n));
                }
            }
            grids = grown;
            lists = longer;
            lemma_extends_twice(grid, &before, old(grid));
            if vacant(old(grid)) && outside@.len() == 0 && inhabited(&before) {
                lemma_extends_inhabited(grid, &before);
            }
        }
        proof {
            assert(pass(grids, lists, outside@, level as nat));
            assert(grids.first() == *old(grid) && lists.first() == old(indices)@);
            assert(grids.last() == *grid && lists.last() == indices@);
            assert(grids.len() - 1 == thrown + 1);
        }
        if indices.is_empty() {
            return false;
        }
        thrown += 1;
    }
    true
}

/// A grid that extends one that extends a third extends the third.
pub proof fn lemma_extends_twice<V: VecLike>(a: &Grid<V>, b: &Grid<V>, c: &Grid<V>)
    requires
        extends(a, b),
        extends(b, c),
    ensures
        extends(a, c),
{
    assert forall|i: int| 0 <= i < c.slots().len() && (#[trigger] c.slots()[i]).is_some() implies a.slots()[i]
        == c.slots()[i] by {
        assert(b.slots()[i] == c.slots()[i]);
        assert(b.slots()[i].is_some());
    }
}

/// A grid that extends one with a sample has a sample.
pub proof fn lemma_extends_inhabited<V: VecLike>(a: &Grid<V>, b: &Grid<V>)
    requires
        extends(a, b),
        inhabited(b),
    ensures
        inhabited(a),
{
    let i = choose|i: int| 0 <= i < b.slots().len() && (#[trigger] b.slots()[i]).is_some();
    assert(a.slots()[i].is_some());
}

/// The `k`-th child of the cell at `index`: a cell of the next level.
pub open spec fn child(index: Seq<int>, k: int) -> Seq<int> {
    Seq::new(index.len(), |n: int| 2 * index[n] + combination(corners(), k, index.len())[n])
}

/// Among the first `count` children of the cell at `index` of level
/// `level`, those that neither a sample nor a point of `outside` covers,
/// in their order.
pub open spec fn survivors<V: VecLike>(
    grid: &Grid<V>,
    outside: Seq<V>,
    index: Seq<int>,
    level: nat,
    count: nat,
) -> Seq<Seq<int>>
    decreases count,
{
    if count == 0 {
        Seq::empty()
    } else {
        let rest = survivors(grid, outside, index, level, (count - 1) as nat);
        let c = child(index, count - 1);
        if pruned(grid, outside, c, level + 1) {
            rest
        } else {
            rest.push(c)
        }
    }
}

/// The coordinates of each point of `s`.
pub open spec fn coords_of<V: VecLike>(s: Seq<V>) -> Seq<Seq<int>> {
    Seq::new(s.len(), |i: int| s[i].coords())
}

/// The child of the cell at `index` that `t` points to.
fn child_at<V: VecLike>(index: V, t: V, k: Ghost<int>) -> (r: V)
    requires
        within(index.coords(), MAX_RESOLUTION as int),
        t.coords() == combination(corners(), k@, V::dim_spec()),
    ensures
        r.coords() == child(index.coords(), k@),
        forall|n: int|
            0 <= n < V::dim_spec() ==> 2 * index.coords()[n] <= #[trigger] r.coords()[n] <= 2
                * index.coords()[n] + 1,
{
    proof {
        index.lemma_dim();
        t.lemma_dim();
        lemma_combination_drawn(corners(), k@, V::dim_spec());
        assert forall|n: int| 0 <= n < V::dim_spec() implies -MAX_RESOLUTION
            <= #[trigger] index.coords()[n] <= MAX_RESOLUTION && 0 <= t.coords()[n] <= 1 by {
            assert(corners().contains(t.coords()[n]));
        }
    }
    let doubled = scaled(index, 2);
    proof {
        assert forall|n: int| 0 <= n < V::dim_spec() implies i128::MIN
            <= #[trigger] doubled.coords()[n] + t.coords()[n] <= i128::MAX by {
            assert(doubled.coords()[n] == index.coords()[n] * 2);
        }
    }
    let r = plus(doubled, t);
    proof {
        assert forall|n: int| 0 <= n < V::dim_spec() implies #[trigger] r.coords()[n] == 2
            * index.coords()[n] + t.coords()[n] by {
            assert(doubled.coords()[n] == index.coords()[n] * 2);
        }
        assert(r.coords() =~= child(index.coords(), k@));
    }
    r
}

/// The children of the cell at `index` of level `level` that neither a
/// sample nor a point of `outside` covers.
pub fn children<V: VecLike>(grid: &Grid<V>, outside: &[V], index: V, level: usize) -> (out: Vec<V>)
    requires
        searchable(grid),
        all_within(outside@),
        level < LEVELS,
        candidate(index.coords(), grid.side_spec(), level as nat),
    ensures
        coords_of(out@) == survivors(
            grid,
            outside@,
            index.coords(),
            level as nat,
            combinations(corners(), V::dim_spec()) as nat,
        ),
        candidates_valid(out@, grid.side_spec(), (level + 1) as nat),
{
    proof {
        index.lemma_dim();
        grid.lemma_wf();
        lemma_candidate(index.coords(), grid.side_spec(), level as nat);
        crate::bounds::lemma_feasible(V::dim_spec());
        assert(0 <= index.coords()[0] < grid.side_spec() * pow2(level as nat));
        assert(grid.side_spec() > 0) by (nonlinear_arith)
            requires
                0 < grid.side_spec() * pow2(level as nat),
                grid.side_spec() >= 0,
        ;
    }
    let mut out: Vec<V> = Vec::new();
    let choices: [i128; 2] = [0, 1];
    let mut it = each_combination::<V>(choices.as_slice());
    proof {
        assert(ints(choices@) =~= corners());
        assert(coords_of(out@) =~= survivors(grid, outside@, index.coords(), level as nat, 0));
    }
    let ghost total = combinations(corners(), V::dim_spec());
    let ghost mut done: int = 0;
    let mut next = it.next();
    while next.is_some()
        invariant
            it.wf(),
            it.choices() == corners(),
            searchable(grid),
            all_within(outside@),
            combinations(corners(), V::dim_spec()) <= usize::MAX,
            pow(3, V::dim_spec()) <= usize::MAX,
            crate::grid::sq_diameter(V::dim_spec()) <= u128::MAX,
            grid.side_spec() > 0,
            grid.side_spec() * CELL <= MAX_RESOLUTION,
            level < LEVELS,
            candidate(index.coords(), grid.side_spec(), level as nat),
            within(index.coords(), MAX_RESOLUTION as int),
            index.coords().len() == V::dim_spec(),
            total == combinations(corners(), V::dim_spec()),
            0 <= done <= total,
            match next {
                Some(t) => {
                    &&& done < total
                    &&& it.position() == done + 1
                    &&& t.coords() == combination(corners(), done, V::dim_spec())
                },
                None => done == total && it.position() == done,
            },
            coords_of(out@) == survivors(grid, outside@, index.coords(), level as nat, done as nat),
            candidates_valid(out@, grid.side_spec(), (level + 1) as nat),
        decreases total - done,
    {
        let t = next.unwrap();
        let c = child_at(index, t, Ghost(done));
        proof {
            c.lemma_dim();
            lemma_child_candidate(index.coords(), c.coords(), grid.side_spec(), level as nat);
            lemma_candidate(c.coords(), grid.side_spec(), (level + 1) as nat);
        }
        let ghost before = out@;
        if !covered(grid, c, level + 1) && !covered_by_outside(outside, c, grid, level + 1) {
            out.push(c);
            proof {
                assert(coords_of(out@) =~= coords_of(before).push(c.coords()));
            }
        }
        proof {
            done = done + 1;
        }
        next = it.next();
    }
    out
}

/// Replaces every candidate cell by those of its children that neither a
/// sample nor a point of `outside` covers. In the bounded cube and on a
/// roomy torus no point is lost by that.
pub fn subdivide<V: VecLike>(grid: &Grid<V>, outside: &[V], indices: &mut Vec<V>, level: usize)
    requires
        searchable(grid),
        all_within(outside@),
        level < LEVELS,
        candidates_valid(old(indices)@, grid.side_spec(), level as nat),
    ensures
        candidates_valid(final(indices)@, grid.side_spec(), (level + 1) as nat),
        exists|parts: Seq<Vec<V>>|
            divided(grid, outside@, old(indices)@, level as nat, parts, final(indices)@),
        sound(grid) && covers(grid, outside@, old(indices)@, level as nat) ==> covers(
            grid,
            outside@,
            final(indices)@,
            (level + 1) as nat,
        ),
{
    let f = |index: V| -> (out: Vec<V>)
        requires
            searchable(grid),
            all_within(outside@),
            level < LEVELS,
            candidate(index.coords(), grid.side_spec(), level as nat),
        ensures
            coords_of(out@) == survivors(
                grid,
                outside@,
                index.coords(),
                level as nat,
                combinations(corners(), V::dim_spec()) as nat,
            ),
            candidates_valid(out@, grid.side_spec(), (level + 1) as nat),
        { children(grid, outside, index, level) };
    indices.flat_map_inplace(f);
    proof {
        let parts = choose|parts: Seq<Vec<V>>| gathers(f, old(indices)@, parts, indices@);
        assert(gathers(f, old(indices).items(), parts, indices.items()));
        assert forall|i: int| 0 <= i < parts.len() implies coords_of((#[trigger] parts[i])@)
            == survivors(
            grid,
            outside@,
            old(indices)@[i].coords(),
            level as nat,
            combinations(corners(), V::dim_spec()) as nat,
        ) && candidates_valid(parts[i]@, grid.side_spec(), (level + 1) as nat) by {
            assert(f.ensures((old(indices)@[i],), parts[i]));
        }
        assert forall|j: int| 0 <= j < indices@.len() implies candidate(
            #[trigger] indices@[j].coords(),
            grid.side_spec(),
            (level + 1) as nat,
        ) by {
            let x = indices@[j];
            vstd::seq_lib::to_multiset_contains(indices@, x);
            assert(indices@.contains(x));
            let (a, b) = lemma_pooled_member(parts, x);
            assert(candidates_valid(parts[a]@, grid.side_spec(), (level + 1) as nat));
            assert(parts[a]@[b] == x);
        }
        assert(divided(grid, outside@, old(indices)@, level as nat, parts, indices@));
        if sound(grid) && covers(grid, outside@, old(indices)@, level as nat) {
            assert forall|i: int| 0 <= i < old(indices)@.len() implies (
            #[trigger] old(indices)@[i]).coords().len() == V::dim_spec() by {
                old(indices)@[i].lemma_dim();
            }
            lemma_divide_covers(grid, outside@, old(indices)@, level as nat, parts, indices@);
        }
    }
}

/// `to` holds, in some order, the uncovered children of the cells of
/// `from`: `parts[i]` holds those of `from[i]`.
pub open spec fn divided<V: VecLike>(
    grid: &Grid<V>,
    outside: Seq<V>,
    from: Seq<V>,
    level: nat,
    parts: Seq<Vec<V>>,
    to: Seq<V>,
) -> bool {
    &&& parts.len() == from.len()
    &&& forall|i: int|
        0 <= i < from.len() ==> coords_of((#[trigger] parts[i])@) == survivors(
            grid,
            outside,
            from[i].coords(),
            level,
            combinations(corners(), V::dim_spec()) as nat,
        )
    &&& to.to_multiset() == pooled(parts)
}

} // verus!
