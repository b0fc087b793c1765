//! Setting a sampler up, and running it.

use vstd::prelude::*;
use vstd::arithmetic::power::{
    pow, lemma_pow0, lemma_pow_increases, lemma_pow_positive, lemma0_pow, lemma1_pow,
};
use vstd::arithmetic::power2::pow2;
use core::marker::PhantomData;
use rand::rngs::StdRng;
use crate::point::{VecLike, within};
use crate::combination::{
    combination, combinations, each_combination, ints, lemma_combination_drawn,
};
use crate::distance::{all_far, all_within, far};
use crate::generator::{throw_samples, subdivide};
use crate::grid::{
    sq_diameter, radius_fits, Grid, CELL, LEVELS, MAX_RESOLUTION, occupied,
    lemma_occupied_slot, lemma_occupied_grows, lemma_slot_occupied,
};
use crate::cover::{roomy, sound, covers, settled, near_sample, sample_near, lemma_in_top_level};
use crate::radix::{digits, lemma_pow_step, lemma_digits_below, lemma_digits_len};
use crate::random::in_cell;
use crate::ring::ring;
use crate::sample::Sample;
use crate::separation::RING_SUFFICES;
use crate::state::{
    inside, candidate, candidates_valid, grid_ok, extends, vacant, inhabited, pair_apart,
    lemma_encode_inside,
};
use crate::index::{encode, encode_spec, get_parent, parent_spec, lemma_encode_bound};

verus! {

/// A sampler can be built for points of `dim` axes on a lattice of
/// `resolution` steps to the unit length: the radius that the resolution
/// stands for is above zero and at most half the square root of two, the
/// grid's cells can be counted, and so can the cells around a cell.
pub open spec fn buildable(resolution: int, dim: nat) -> bool {
    &&& dim >= 1
    &&& 0 < resolution <= MAX_RESOLUTION
    &&& radius_fits(resolution, dim)
    &&& resolution / (CELL as int) <= usize::MAX
    &&& pow(resolution / (CELL as int), dim) <= usize::MAX
    &&& pow(5, dim) <= usize::MAX
}

/// Whether `base` to the power `exp` can be held.
pub fn fits_pow(base: usize, exp: usize) -> (ok: bool)
    ensures
        ok == (pow(base as int, exp as nat) <= usize::MAX),
{
    if base <= 1 {
        proof {
            if base == 1 {
                lemma1_pow(exp as nat);
            } else if exp == 0 {
                lemma_pow0(0);
            } else {
                lemma0_pow(exp as nat);
            }
        }
        return true;
    }
    let mut r: usize = 1;
    let mut i: usize = 0;
    proof {
        lemma_pow0(base as int);
    }
    while i < exp
        invariant
            i <= exp,
            base >= 2,
            r == pow(base as int, i as nat),
        decreases exp - i,
    {
        proof {
            lemma_pow_step(base as int, i as nat);
            lemma_pow_increases(base as nat, (i + 1) as nat, exp as nat);
        }
        match r.checked_mul(base) {
            Some(x) => {
                r = x;
            },
            None => {
                return false;
            },
        }
        i += 1;
    }
    true
}

/// Whether a sampler can be built for points of type `V` at `resolution`.
pub fn is_buildable<V: VecLike>(resolution: i128) -> (ok: bool)
    ensures
        ok == buildable(resolution as int, V::dim_spec()),
{
    let dim = V::dim();
    if dim < 1 || resolution <= 0 || resolution > MAX_RESOLUTION {
        return false;
    }
    if !fits_pow(5, dim) {
        return false;
    }
    proof {
        crate::bounds::lemma_feasible(dim as nat);
    }
    let cells = resolution / CELL;
    if cells > usize::MAX as i128 {
        return false;
    }
    if !fits_pow(cells as usize, dim) {
        return false;
    }
    let half: u128 = 40564819207303340847894502572032;
    proof {
        assert(sq_diameter(dim as nat) == 2 * (dim * half)) by (nonlinear_arith)
            requires
                sq_diameter(dim as nat) == dim * (CELL as int) * (CELL as int),
                CELL == 9007199254740992,
                half == 40564819207303340847894502572032,
        ;
        assert(dim * half <= u128::MAX) by (nonlinear_arith)
            requires
                dim <= 27,
                half == 40564819207303340847894502572032,
        ;
    }
    if resolution >= 0x1_0000_0000_0000_0000 {
        proof {
            assert(2 * resolution * resolution >= 2 * (dim * half)) by (nonlinear_arith)
                requires
                    resolution >= 0x1_0000_0000_0000_0000,
                    dim <= 27,
                    half == 40564819207303340847894502572032,
            ;
        }
        return true;
    }
    let r = resolution as u128;
    proof {
        assert(r * r <= u128::MAX) by (nonlinear_arith)
            requires
                0 <= r < 0x1_0000_0000_0000_0000,
        ;
        assert((2 * resolution * resolution >= 2 * (dim * half)) <==> (r * r >= dim * half))
            by (nonlinear_arith)
            requires
                r == resolution,
        ;
    }
    r * r >= (dim as u128) * half
}

/// The least resolution that a sampler for points of type `V` can be built
/// at: the one that stands for the largest radius, half the square root of
/// two.
pub fn coarsest_resolution<V: VecLike>() -> (r: i128)
    requires
        1 <= V::dim_spec() <= crate::bounds::MAX_DIM,
    ensures
        0 < r <= MAX_RESOLUTION,
        radius_fits(r as int, V::dim_spec()),
        forall|s: int| 0 <= s < r ==> !#[trigger] radius_fits(s, V::dim_spec()),
{
    let dim = V::dim();
    let half: u128 = 40564819207303340847894502572032;
    proof {
        assert(sq_diameter(dim as nat) == 2 * (dim * half)) by (nonlinear_arith)
            requires
                sq_diameter(dim as nat) == dim * (CELL as int) * (CELL as int),
                CELL == 9007199254740992,
                half == 40564819207303340847894502572032,
        ;
        assert(0 < dim * half <= 1095250118597190202893151569444864) by (nonlinear_arith)
            requires
                1 <= dim <= 27,
                half == 40564819207303340847894502572032,
        ;
    }
    let target: u128 = (dim as u128) * half;
    let mut low: u128 = 0;
    let mut high: u128 = 0xffff_ffff_ffff_ffff;
    proof {
        assert(high * high >= target) by (nonlinear_arith)
            requires
                high == 0xffff_ffff_ffff_ffff,
                target <= 1095250118597190202893151569444864,
        ;
    }
    while high - low > 1
        invariant
            low < high <= 0xffff_ffff_ffff_ffff,
            low * low < target,
            high * high >= target,
        decreases high - low,
    {
        let mid = low + (high - low) / 2;
        proof {
            assert(mid * mid <= u128::MAX) by (nonlinear_arith)
                requires
                    mid <= 0xffff_ffff_ffff_ffff,
            ;
        }
        if mid * mid >= target {
            high = mid;
        } else {
            low = mid;
        }
    }
    proof {
        assert forall|s: int| 0 <= s < high implies !#[trigger] radius_fits(s, dim as nat) by {
            assert(s * s <= low * low) by (nonlinear_arith)
                requires
                    0 <= s <= low,
            ;
            assert(2 * s * s == 2 * (s * s)) by (nonlinear_arith);
        }
        assert(2 * high * high == 2 * (high * high)) by (nonlinear_arith);
    }
    high as i128
}

/// Builds samplers: holds the random source and whether the cube's
/// opposite faces are glued together.
pub struct PoissonDisk {
    rand: StdRng,
    periodicity: bool,
}

impl PoissonDisk {
    /// Whether the samplers built will work on the torus.
    pub closed spec fn periodic(&self) -> bool {
        self.periodicity
    }

    /// A builder of samplers for the bounded cube, with `rand` as its
    /// random source.
    pub fn new(rand: StdRng) -> (b: Self)
        ensures
            !b.periodic(),
            b.source() == rand,
    {
        PoissonDisk { rand, periodicity: false }
    }

    /// The random source that the samplers built will draw from.
    pub closed spec fn source(&self) -> StdRng {
        self.rand
    }

    /// The same builder, for the torus.
    pub fn perioditic(self) -> (b: Self)
        ensures
            b.periodic(),
            b.source() == self.source(),
    {
        let mut b = self;
        b.periodicity = true;
        b
    }

    /// A sampler at `resolution` lattice steps to the unit length. The
    /// cells of its grid are `CELL` steps wide and the disks' diameter is
    /// a cell's diagonal.
    pub fn build_resolution<V: VecLike>(self, resolution: i128) -> (g: PoissonGen<V>)
        requires
            buildable(resolution as int, V::dim_spec()),
        ensures
            g.wf(),
            g.resolution_spec() == resolution,
            g.periodic() == self.periodic(),
            g.source() == self.source(),
    {
        PoissonGen { dim: PhantomData, rand: self.rand, resolution, periodicity: self.periodicity }
    }
}

/// A sampler for points of type `V`.
pub struct PoissonGen<V: VecLike> {
    dim: PhantomData<V>,
    rand: StdRng,
    resolution: i128,
    periodicity: bool,
}

/// The position of each sample of `samples`.
pub open spec fn positions<V: VecLike>(samples: Seq<Sample<V>>) -> Seq<V> {
    Seq::new(samples.len(), |i: int| samples[i].position_spec())
}

impl<V: VecLike> PoissonGen<V> {
    /// The number of lattice steps that make up the unit length.
    pub closed spec fn resolution_spec(&self) -> int {
        self.resolution as int
    }

    /// Whether the sampler works on the torus.
    pub closed spec fn periodic(&self) -> bool {
        self.periodicity
    }

    /// The random source that the sampler draws from, in its present
    /// state.
    pub closed spec fn source(&self) -> StdRng {
        self.rand
    }

    /// The sampler's resolution is one that a sampler can be built for.
    pub closed spec fn wf(&self) -> bool {
        buildable(self.resolution as int, V::dim_spec())
    }

    /// The number of cells along each axis of the sampler's grid.
    pub open spec fn side_spec(&self) -> int {
        self.resolution_spec() / (CELL as int)
    }

    /// A radius of at most half the square root of two leaves room for a
    /// cell: the grid of a sampler has at least one along each axis, where
    /// the space has two axes or more.
    pub proof fn lemma_has_cells(&self)
        requires
            self.wf(),
            V::dim_spec() >= 2,
        ensures
            self.side_spec() >= 1,
    {
        let resolution = self.resolution as int;
        assert(resolution >= CELL) by (nonlinear_arith)
            requires
                2 * resolution * resolution >= V::dim_spec() * (CELL as int) * (CELL as int),
                V::dim_spec() >= 2,
                resolution > 0,
                CELL > 0,
        ;
        vstd::arithmetic::div_mod::lemma_fundamental_div_mod(resolution, CELL as int);
        vstd::arithmetic::div_mod::lemma_mod_bound(resolution, CELL as int);
    }

    /// The grid lies within the unit cube: a point of one of its cells is
    /// less than the unit length from the origin along each axis.
    pub proof fn lemma_inside_unit(&self, c: Seq<int>)
        requires
            self.wf(),
            inside(c, self.side_spec()),
        ensures
            forall|n: int| 0 <= n < c.len() ==> 0 <= #[trigger] c[n] < self.resolution_spec(),
    {
        let resolution = self.resolution as int;
        let cell = CELL as int;
        vstd::arithmetic::div_mod::lemma_fundamental_div_mod(resolution, cell);
        vstd::arithmetic::div_mod::lemma_mod_bound(resolution, cell);
        assert((resolution / cell) * cell <= resolution) by (nonlinear_arith)
            requires
                resolution == cell * (resolution / cell) + resolution % cell,
                0 <= resolution % cell,
        ;
    }

    /// Sets the resolution of the sampler.
    pub fn set_resolution(&mut self, resolution: i128)
        requires
            buildable(resolution as int, V::dim_spec()),
        ensures
            final(self).wf(),
            final(self).resolution_spec() == resolution,
            final(self).periodic() == old(self).periodic(),
            final(self).source() == old(self).source(),
    {
        self.resolution = resolution;
    }

    /// The resolution of the sampler.
    pub fn resolution(&self) -> (r: i128)
        ensures
            r == self.resolution_spec(),
    {
        self.resolution
    }

    /// Whether the sampler works on the torus.
    pub fn periodicity(&self) -> (p: bool)
        ensures
            p == self.periodic(),
    {
        self.periodicity
    }
}

/// The cells of the top level, all of them: the candidates that a run
/// starts with.
pub fn top_level_cells<V: VecLike>(side: usize) -> (indices: Vec<V>)
    requires
        pow(side as int, V::dim_spec()) <= usize::MAX,
    ensures
        indices@.len() == pow(side as int, V::dim_spec()),
        candidates_valid(indices@, side as int, 0),
        forall|k: int|
            0 <= k < indices@.len() ==> (#[trigger] indices@[k]).coords() == combination(
                Seq::new(side as nat, |i: int| i),
                k,
                V::dim_spec(),
            ),
{
    let mut choices: Vec<i128> = Vec::new();
    let mut c: usize = 0;
    while c < side
        invariant
            c <= side,
            choices@.len() == c,
            forall|i: int| 0 <= i < c ==> choices@[i] == i,
        decreases side - c,
    {
        choices.push(c as i128);
        c += 1;
    }
    let ghost counted = Seq::new(side as nat, |i: int| i);
    proof {
        assert(ints(choices@) =~= counted);
        vstd::arithmetic::power2::lemma2_to64();
    }
    let mut indices: Vec<V> = Vec::new();
    let mut it = each_combination::<V>(choices.as_slice());
    let ghost total = combinations(counted, V::dim_spec());
    let mut next = it.next();
    while next.is_some()
        invariant
            it.wf(),
            it.choices() == counted,
            counted.len() == side,
            forall|i: int| 0 <= i < side ==> counted[i] == i,
            total == combinations(counted, V::dim_spec()),
            pow2(0) == 1,
            0 <= indices@.len() <= total,
            match next {
                Some(t) => {
                    &&& indices@.len() < total
                    &&& it.position() == indices@.len() + 1
                    &&& t.coords() == combination(counted, indices@.len() as int, V::dim_spec())
                },
                None => indices@.len() == total && it.position() == indices@.len(),
            },
            candidates_valid(indices@, side as int, 0),
            forall|k: int|
                0 <= k < indices@.len() ==> (#[trigger] indices@[k]).coords() == combination(
                    counted,
                    k,
                    V::dim_spec(),
                ),
        decreases total - indices@.len(),
    {
        let t = next.unwrap();
        proof {
            if side > 0 {
                lemma_combination_drawn(counted, indices@.len() as int, V::dim_spec());
                assert forall|n: int| 0 <= n < t.coords().len() implies 0
                    <= #[trigger] t.coords()[n] < side * pow2(0) by {
                    assert(counted.contains(t.coords()[n]));
                }
            } else {
                // Without choices there are vectors only where there are no
                // axes.
                if V::dim_spec() > 0 {
                    lemma0_pow(V::dim_spec());
                }
                t.lemma_dim();
            }
        }
        indices.push(t);
        next = it.next();
    }
    indices
}

/// The slots that `stored` lists.
pub open spec fn slots_of(stored: Seq<usize>) -> Set<int> {
    Set::new(|g: int| exists|k: int| 0 <= k < stored.len() && #[trigger] stored[k] == g)
}

/// The point `s` is in a slot of `given` or among `leftover`.
pub open spec fn accounted<V: VecLike>(
    s: V,
    grid: &Grid<V>,
    given: Set<int>,
    leftover: Seq<V>,
) -> bool {
    (exists|g: int| given.contains(g) && #[trigger] grid.slots()[g] == Some(s)) || leftover.contains(
        s,
    )
}

/// Every sample of the grid is in a slot of `given`.
pub open spec fn only_given<V: VecLike>(grid: &Grid<V>, given: Set<int>) -> bool {
    forall|i: int|
        0 <= i < grid.slots().len() && (#[trigger] grid.slots()[i]).is_some() ==> given.contains(i)
}

/// There was no slot for the point `s` to go to: it lies in no cell of
/// the grid, or in a cell that holds a sample.
pub open spec fn no_room_for<V: VecLike>(grid: &Grid<V>, s: V) -> bool {
    match encode_spec(parent_spec(s.coords(), LEVELS as nat), grid.side_spec(), false) {
        Some(at) => grid.slots()[at].is_some(),
        None => true,
    }
}

/// A point lies in the top-level cell that it is coarsened to.
pub proof fn lemma_in_own_cell(s: Seq<int>)
    ensures
        in_cell(s, parent_spec(s, LEVELS as nat), 0),
{
    crate::random::lemma_cell_is_pow2();
    let p = parent_spec(s, LEVELS as nat);
    assert forall|n: int| 0 <= n < p.len() implies p[n] * crate::random::spacing(0) <= #[trigger] s[n]
        < (p[n] + 1) * crate::random::spacing(0) by {
        let x = s[n];
        let c = CELL as int;
        vstd::arithmetic::div_mod::lemma_fundamental_div_mod(x, c);
        vstd::arithmetic::div_mod::lemma_mod_bound(x, c);
        assert((x / c) * c <= x < (x / c + 1) * c) by (nonlinear_arith)
            requires
                x == c * (x / c) + x % c,
                0 <= x % c < c,
        ;
    }
}

/// Puts the points given beforehand into the empty grid, each into the
/// slot of the cell it lies in. A point that lies in no cell of the grid,
/// or in a cell with another given point, is set aside; so are all of them
/// in a space of more than four axes, where the search around a cell would
/// not find all that are near. Returns the slots filled and the points
/// set aside.
pub fn place_given<V: VecLike>(
    grid: &mut Grid<V>,
    points: &Vec<Sample<V>>,
) -> (r: (Vec<usize>, Vec<V>))
    requires
        old(grid).wf(),
        vacant(old(grid)),
        V::dim_spec() >= 1,
        combinations(ring(), V::dim_spec()) <= usize::MAX,
        all_within(positions(points@)),
    ensures
        grid_ok(final(grid), slots_of(r.0@), r.1@),
        only_given(final(grid), slots_of(r.0@)),
        final(grid).side_spec() == old(grid).side_spec(),
        final(grid).resolution_spec() == old(grid).resolution_spec(),
        final(grid).periodic() == old(grid).periodic(),
        forall|k: int| 0 <= k < r.0@.len() ==> (#[trigger] r.0@[k]) < final(grid).slots().len(),
        forall|i: int|
            0 <= i < points@.len() ==> accounted(
                #[trigger] positions(points@)[i],
                final(grid),
                slots_of(r.0@),
                r.1@,
            ),
        points@.len() == 0 ==> vacant(final(grid)) && r.0@.len() == 0 && r.1@.len() == 0,
        V::dim_spec() > RING_SUFFICES ==> r.0@.len() == 0,
        V::dim_spec() <= RING_SUFFICES ==> forall|j: int|
            0 <= j < r.1@.len() ==> no_room_for(final(grid), #[trigger] r.1@[j]),
        forall|j: int| 0 <= j < r.1@.len() ==> positions(points@).contains(#[trigger] r.1@[j]),
        forall|g: int|
            0 <= g < final(grid).slots().len() ==> match #[trigger] final(grid).slots()[g] {
                Some(v) => positions(points@).contains(v),
                None => true,
            },
{
    let mut stored: Vec<usize> = Vec::new();
    let mut leftover: Vec<V> = Vec::new();
    let side = grid.side();
    let by_grid = V::dim() <= RING_SUFFICES;
    let mut i: usize = 0;
    proof {
        grid.lemma_wf();
    }
    while i < points.len()
        invariant
            i <= points@.len(),
            all_within(positions(points@)),
            grid_ok(grid, slots_of(stored@), leftover@),
            only_given(grid, slots_of(stored@)),
            side == grid.side_spec(),
            by_grid == (V::dim_spec() <= RING_SUFFICES),
            grid.side_spec() == old(grid).side_spec(),
            grid.resolution_spec() == old(grid).resolution_spec(),
            grid.periodic() == old(grid).periodic(),
            forall|k: int| 0 <= k < stored@.len() ==> (#[trigger] stored@[k]) < grid.slots().len(),
            forall|j: int|
                0 <= j < i ==> accounted(
                    #[trigger] positions(points@)[j],
                    grid,
                    slots_of(stored@),
                    leftover@,
                ),
            i == 0 ==> vacant(grid) && stored@.len() == 0 && leftover@.len() == 0,
            !by_grid ==> stored@.len() == 0,
            by_grid ==> forall|j: int|
                0 <= j < leftover@.len() ==> no_room_for(grid, #[trigger] leftover@[j]),
            forall|j: int|
                0 <= j < leftover@.len() ==> positions(points@).contains(#[trigger] leftover@[j]),
            forall|g: int|
                0 <= g < grid.slots().len() ==> match #[trigger] grid.slots()[g] {
                    Some(v) => positions(points@).contains(v),
                    None => true,
                },
        decreases points@.len() - i,
    {
        let s = points[i].position();
        let ghost before = *grid;
        let ghost given = slots_of(stored@);
        let ghost listed = stored@;
        let ghost aside = leftover@;
        proof {
            grid.lemma_wf();
            s.lemma_dim();
            assert(positions(points@)[i as int] == s);
            assert(within(s.coords(), MAX_RESOLUTION as int));
        }
        let mut kept = false;
        if by_grid && side > 0 {
            let cell = get_parent(s, LEVELS);
            proof {
                cell.lemma_dim();
            }
            match encode(&cell, side, false) {
                Some(slot) => {
                    proof {
                        lemma_encode_inside(cell.coords(), side as int, grid.periodic());
                        lemma_encode_inside(cell.coords(), side as int, false);
                        lemma_in_own_cell(s.coords());
                    }
                    match grid.get_mut(cell) {
                        Some(place) => {
                            if place.is_none() {
                                *place = Some(s);
                                kept = true;
                            }
                        },
                        None => {},
                    }
                    if kept {
                        stored.push(slot);
                        proof {
                            assert(0 <= slot < before.slots().len());
                            assert(before.slots()[slot as int].is_none());
                            assert(grid.slots() == before.slots().update(slot as int, Some(s)));
                            assert forall|j: int| 0 <= j < leftover@.len() implies no_room_for(
                                grid,
                                #[trigger] leftover@[j],
                            ) by {
                                assert(no_room_for(&before, leftover@[j]));
                                leftover@[j].lemma_dim();
                                lemma_encode_bound(
                                    parent_spec(leftover@[j].coords(), LEVELS as nat),
                                    side as int,
                                    false,
                                );
                            }
                            let grown = slots_of(stored@);
                            assert forall|g: int| grown.contains(g) <==> (given.contains(g) || g
                                == slot) by {
                                if given.contains(g) {
                                    let k = choose|k: int| 0 <= k < listed.len() && listed[k] == g;
                                    assert(stored@[k] == g);
                                }
                                if g == slot {
                                    assert(stored@[stored@.len() - 1] == g);
                                }
                                if grown.contains(g) {
                                    let k = choose|k: int| 0 <= k < stored@.len() && stored@[k] == g;
                                    if k < stored@.len() - 1 {
                                        assert(listed[k] == g);
                                    }
                                }
                            }
                            assert forall|a: int, b: int|
                                0 <= a < grid.slots().len() && 0 <= b < grid.slots().len() && a
                                    != b && !(grown.contains(a) && grown.contains(b)) implies #[trigger] pair_apart(
                                grid,
                                a,
                                b,
                            ) by {
                                if grid.slots()[a].is_some() {
                                    assert(a == slot || before.slots()[a].is_some());
                                }
                                if grid.slots()[b].is_some() {
                                    assert(b == slot || before.slots()[b].is_some());
                                }
                            }
                            assert forall|a: int|
                                0 <= a < grid.slots().len() implies match #[trigger] grid.slots()[a] {
                                Some(v) => within(v.coords(), MAX_RESOLUTION as int) && in_cell(
                                    v.coords(),
                                    digits(a, grid.side_spec(), V::dim_spec()),
                                    0,
                                ) && grown.contains(a),
                                None => true,
                            } by {
                                if a != slot {
                                    assert(grid.slots()[a] == before.slots()[a]);
                                }
                            }
                            assert forall|j: int| 0 <= j <= i implies accounted(
                                #[trigger] positions(points@)[j],
                                grid,
                                grown,
                                leftover@,
                            ) by {
                                if j < i {
                                    let p = positions(points@)[j];
                                    assert(accounted(p, &before, given, aside));
                                    if !aside.contains(p) {
                                        let g = choose|g: int|
                                            given.contains(g) && #[trigger] before.slots()[g]
                                                == Some(p);
                                        assert(before.slots()[g].is_some());
                                        assert(grid.slots()[g] == Some(p));
                                    }
                                } else {
                                    assert(grid.slots()[slot as int] == Some(s));
                                }
                            }
                        }
                    }
                },
                None => {},
            }
        }
        if !kept {
            leftover.push(s);
            proof {
                assert(grid.slots() == before.slots());
                assert forall|j: int| 0 <= j < leftover@.len() implies within(
                    #[trigger] leftover@[j].coords(),
                    MAX_RESOLUTION as int,
                ) && positions(points@).contains(leftover@[j]) && (by_grid ==> no_room_for(
                    grid,
                    leftover@[j],
                )) by {
                    if j < aside.len() {
                        assert(leftover@[j] == aside[j]);
                        assert(by_grid ==> no_room_for(&before, aside[j]));
                    } else if by_grid && side == 0 {
                        assert(!(0 <= parent_spec(s.coords(), LEVELS as nat)[0] < side));
                    }
                }
                assert forall|j: int| 0 <= j <= i implies accounted(
                    #[trigger] positions(points@)[j],
                    grid,
                    given,
                    leftover@,
                ) by {
                    let p = positions(points@)[j];
                    if j < i {
                        assert(accounted(p, &before, given, aside));
                        if aside.contains(p) {
                            let at = choose|at: int| 0 <= at < aside.len() && aside[at] == p;
                            assert(leftover@[at] == p);
                        }
                    } else {
                        assert(leftover@[leftover@.len() - 1] == p);
                    }
                }
            }
        }
        i += 1;
    }
    (stored, leftover)
}

/// Empties the slots that `stored` lists, so that the grid holds nothing
/// but what a run has found.
pub fn take_given_out<V: VecLike>(grid: &mut Grid<V>, stored: &Vec<usize>)
    requires
        old(grid).wf(),
        forall|k: int| 0 <= k < stored@.len() ==> (#[trigger] stored@[k]) < old(grid).slots().len(),
    ensures
        final(grid).wf(),
        final(grid).side_spec() == old(grid).side_spec(),
        final(grid).resolution_spec() == old(grid).resolution_spec(),
        final(grid).periodic() == old(grid).periodic(),
        final(grid).slots().len() == old(grid).slots().len(),
        forall|i: int|
            0 <= i < old(grid).slots().len() ==> #[trigger] final(grid).slots()[i] == (if slots_of(
                stored@,
            ).contains(i) {
                None
            } else {
                old(grid).slots()[i]
            }),
{
    let mut k: usize = 0;
    while k < stored.len()
        invariant
            k <= stored@.len(),
            grid.wf(),
            grid.side_spec() == old(grid).side_spec(),
            grid.resolution_spec() == old(grid).resolution_spec(),
            grid.periodic() == old(grid).periodic(),
            grid.slots().len() == old(grid).slots().len(),
            forall|j: int| 0 <= j < stored@.len() ==> (#[trigger] stored@[j]) < grid.slots().len(),
            forall|i: int|
                0 <= i < grid.slots().len() ==> #[trigger] grid.slots()[i] == (if slots_of(
                    stored@.take(k as int),
                ).contains(i) {
                    None
                } else {
                    old(grid).slots()[i]
                }),
        decreases stored@.len() - k,
    {
        let ghost before = grid.slots();
        let slot = stored[k];
        grid.vacate(slot);
        proof {
            let done = stored@.take(k as int);
            let more = stored@.take(k + 1);
            assert forall|i: int| 0 <= i < grid.slots().len() implies #[trigger] grid.slots()[i] == (
            if slots_of(more).contains(i) {
                None
            } else {
                old(grid).slots()[i]
            }) by {
                if slots_of(done).contains(i) {
                    let j = choose|j: int| 0 <= j < done.len() && done[j] == i;
                    assert(more[j] == i);
                }
                if i == slot {
                    assert(more[k as int] == i);
                }
                if slots_of(more).contains(i) && i != slot {
                    let j = choose|j: int| 0 <= j < more.len() && more[j] == i;
                    assert(done[j] == i);
                }
            }
        }
        k += 1;
    }
    proof {
        assert(stored@.take(k as int) =~= stored@);
    }
}

/// How a run of the sampler ended.
#[derive(Clone, Copy, Debug, PartialEq, Eq)]
pub struct Outcome {
    /// The number of times the candidate cells were divided.
    pub levels: usize,
    /// Whether the run ended because no candidate cell was left.
    pub exhausted: bool,
}

/// The point `x` is too near to some sample of `points` to become a sample.
pub open spec fn reached<V: VecLike>(
    points: Seq<Sample<V>>,
    x: Seq<int>,
    unit: int,
    periodic: bool,
) -> bool {
    exists|j: int|
        0 <= j < points.len() && !far(
            (#[trigger] points[j]).position_spec().coords(),
            x,
            unit,
            periodic,
        )
}

/// No point of the grid can be added to `points`: each is less than a
/// diameter away from one of them.
pub open spec fn maximal<V: VecLike>(
    points: Seq<Sample<V>>,
    side: int,
    unit: int,
    periodic: bool,
) -> bool {
    forall|x: Seq<int>|
        x.len() == V::dim_spec() && inside(x, side) ==> #[trigger] reached(
            points,
            x,
            unit,
            periodic,
        )
}

impl<V: VecLike> PoissonGen<V> {
    /// Fills the unit cube with samples and appends them to `points`.
    ///
    /// The points that `points` holds already are kept, and every new
    /// sample keeps its distance from all of them. In a space of at most
    /// four axes the new samples keep their distance from each other as
    /// well; in one of more axes the search around a cell does not reach
    /// far enough to say so. Where `points` is empty and the grid has a
    /// cell, at least one sample is found.
    pub fn generate(&mut self, points: &mut Vec<Sample<V>>)
        requires
            old(self).wf(),
            all_within(positions(old(points)@)),
        ensures
            final(self).wf(),
            final(self).resolution_spec() == old(self).resolution_spec(),
            final(self).periodic() == old(self).periodic(),
            old(self).extended(old(points)@, final(points)@),
    {
        let _ = self.fill(points);
    }

    /// What `generate` and `fill` make of `before`: `after` begins with
    /// the points of `before`, and goes on with samples of the sampler's
    /// resolution that lie in the grid and keep their distance from all
    /// points of `before` and, in a space of at most four axes, from each
    /// other. Where `before` is empty and the grid has a cell, `after` is
    /// not empty.
    pub open spec fn extended(&self, before: Seq<Sample<V>>, after: Seq<Sample<V>>) -> bool {
        &&& after.len() >= before.len()
        &&& forall|i: int| 0 <= i < before.len() ==> after[i] == before[i]
        &&& before.len() == 0 && self.side_spec() >= 1 ==> after.len() > 0
        &&& forall|j: int|
            before.len() <= j < after.len() ==> {
                &&& (#[trigger] after[j]).resolution_spec() == self.resolution_spec()
                &&& inside(after[j].position_spec().coords(), self.side_spec())
                &&& all_far(
                    positions(before),
                    after[j].position_spec().coords(),
                    self.resolution_spec(),
                    self.periodic(),
                )
            }
        &&& V::dim_spec() <= RING_SUFFICES ==> forall|j: int, k: int|
            before.len() <= j < after.len() && before.len() <= k < after.len() && j != k ==> far(
                (#[trigger] after[j]).position_spec().coords(),
                (#[trigger] after[k]).position_spec().coords(),
                self.resolution_spec(),
                self.periodic(),
            )
    }

    /// Does what `generate` does, and says how the run ended.
    ///
    /// A run ends when no candidate cell is left, or after the cells have
    /// been divided `LEVELS` times. In the bounded cube and on a roomy
    /// torus a run that ended for want of candidates has left no room:
    /// every point of the grid is less than a diameter away from a sample
    /// or from a point given beforehand.
    pub fn fill(&mut self, points: &mut Vec<Sample<V>>) -> (o: Outcome)
        requires
            old(self).wf(),
            all_within(positions(old(points)@)),
        ensures
            o.levels <= LEVELS,
            !o.exhausted ==> o.levels == LEVELS,
            o.exhausted && (!old(self).periodic() || roomy(
                old(self).resolution_spec(),
                V::dim_spec(),
            )) ==> maximal(
                final(points)@,
                old(self).side_spec(),
                old(self).resolution_spec(),
                old(self).periodic(),
            ),
            final(self).wf(),
            final(self).resolution_spec() == old(self).resolution_spec(),
            final(self).periodic() == old(self).periodic(),
            old(self).extended(old(points)@, final(points)@),
    {
        let mut grid = Grid::<V>::new(self.resolution, self.periodicity);
        proof {
            grid.lemma_wf();
        }
        let (stored, outside) = place_given(&mut grid, points);
        let mut indices = top_level_cells::<V>(grid.side());
        let mut level: usize = 0;
        proof {
            if grid.side_spec() > 0 {
                lemma_pow_positive(grid.side_spec(), V::dim_spec());
            }
        }
        let ghost given = slots_of(stored@);
        let ghost loaded = grid;
        let ghost seeded = old(points)@.len() > 0 || grid.side_spec() == 0;
        proof {
            assert forall|x: Seq<int>|
                x.len() == V::dim_spec() && inside(x, grid.side_spec()) implies #[trigger] settled(
                &grid,
                outside@,
                indices@,
                0,
                x,
            ) by {
                let k = lemma_in_top_level(x, grid.side_spec());
                assert(in_cell(x, indices@[k].coords(), 0));
            }
        }
        while !indices.is_empty() && level < LEVELS
            invariant
                grid_ok(&grid, given, outside@),
                extends(&grid, &loaded),
                self.resolution == old(self).resolution,
                self.periodicity == old(self).periodicity,
                grid.resolution_spec() == self.resolution,
                grid.periodic() == self.periodicity,
                grid.side_spec() == self.resolution as int / (CELL as int),
                candidates_valid(indices@, grid.side_spec(), level as nat),
                level <= LEVELS,
                !seeded ==> outside@.len() == 0,
                !seeded ==> (level == 0 && vacant(&grid) && indices@.len() > 0) || inhabited(&grid),
                sound(&grid) ==> covers(&grid, outside@, indices@, level as nat),
            decreases
                    2 * (LEVELS - level) + (if indices@.len() > 0 {
                        1int
                    } else {
                        0int
                    }),
        {
            let ghost before = grid;
            let more = throw_samples(
                &mut self.rand,
                &mut grid,
                &mut indices,
                level,
                outside.as_slice(),
                Ghost(given),
            );
            proof {
                crate::generator::lemma_extends_twice(&grid, &before, &loaded);
                if !seeded && inhabited(&before) {
                    crate::generator::lemma_extends_inhabited(&grid, &before);
                }
            }
            if more {
                subdivide(&grid, outside.as_slice(), &mut indices, level);
                level += 1;
            }
        }
        let ghost full = grid;
        let outcome = Outcome { levels: level, exhausted: indices.is_empty() };
        take_given_out(&mut grid, &stored);
        let ghost slots = grid.slots();
        let ghost before = points@;
        proof {
            grid.lemma_wf();
            if !seeded {
                assert(given =~= Set::<int>::empty());
                let at = choose|at: int|
                    0 <= at < full.slots().len() && (#[trigger] full.slots()[at]).is_some();
                assert(slots[at].is_some());
                lemma_occupied_grows(slots, at);
            }
        }
        grid.into_extended_samples(points);
        proof {
            let side = grid.side_spec();
            let unit = grid.resolution_spec();
            let periodic = grid.periodic();
            let found = occupied(slots);
            assert forall|j: int| before.len() <= j < points@.len() implies {
                &&& (#[trigger] points@[j]).resolution_spec() == unit
                &&& inside(points@[j].position_spec().coords(), side)
                &&& all_far(positions(before), points@[j].position_spec().coords(), unit, periodic)
            } by {
                let a = j - before.len();
                let at = lemma_occupied_slot(slots, a);
                assert(points@[before.len() + a].position_spec() == found[a]);
                let v = found[a];
                v.lemma_dim();
                assert(slots[at] == Some(v));
                assert(!given.contains(at));
                assert(full.slots()[at] == Some(v));
                if side == 0 {
                    lemma0_pow(V::dim_spec());
                }
                lemma_digits_below(at, side, V::dim_spec());
                lemma_digits_len(at, side, V::dim_spec());
                crate::random::lemma_cell_is_pow2();
                let q = digits(at, side, V::dim_spec());
                assert(in_cell(v.coords(), q, 0));
                assert forall|n: int| 0 <= n < v.coords().len() implies 0
                    <= #[trigger] v.coords()[n] < side * CELL by {
                    assert(0 <= q[n] < side);
                    assert(q[n] * CELL <= v.coords()[n] < (q[n] + 1) * CELL);
                    assert(0 <= q[n] * CELL && (q[n] + 1) * CELL <= side * CELL)
                        by (nonlinear_arith)
                        requires
                            0 <= q[n] < side,
                            CELL > 0,
                    ;
                }
                assert forall|i: int| 0 <= i < before.len() implies far(
                    #[trigger] positions(before)[i].coords(),
                    v.coords(),
                    unit,
                    periodic,
                ) by {
                    let p = positions(before)[i];
                    assert(accounted(p, &loaded, given, outside@));
                    if outside@.contains(p) {
                        let o = choose|o: int| 0 <= o < outside@.len() && outside@[o] == p;
                        assert(far(outside@[o].coords(), v.coords(), unit, periodic));
                    } else {
                        let g = choose|g: int|
                            given.contains(g) && #[trigger] loaded.slots()[g] == Some(p);
                        assert(loaded.slots()[g].is_some());
                        assert(full.slots()[g] == Some(p));
                        assert(pair_apart(&full, g, at));
                    }
                }
            }
            if V::dim_spec() <= RING_SUFFICES {
                assert forall|j: int, k: int|
                    before.len() <= j < points@.len() && before.len() <= k < points@.len() && j
                        != k implies far(
                    (#[trigger] points@[j]).position_spec().coords(),
                    (#[trigger] points@[k]).position_spec().coords(),
                    unit,
                    periodic,
                ) by {
                    let a = j - before.len();
                    let b = k - before.len();
                    let at = lemma_occupied_slot(slots, a);
                    let bt = lemma_occupied_slot(slots, b);
                    assert(points@[before.len() + a].position_spec() == found[a]);
                    assert(points@[before.len() + b].position_spec() == found[b]);
                    assert(at != bt);
                    assert(pair_apart(&full, at, bt));
                }
            }
            if outcome.exhausted && sound(&full) {
                assert forall|x: Seq<int>|
                    x.len() == V::dim_spec() && inside(x, side) implies #[trigger] reached(
                    points@,
                    x,
                    unit,
                    periodic,
                ) by {
                    assert(settled(&full, outside@, indices@, level as nat, x));
                    if near_sample(&full, x) {
                        let i = choose|i: int|
                            0 <= i < full.slots().len() && #[trigger] sample_near(&full, i, x);
                        let v = full.slots()[i].unwrap();
                        if given.contains(i) {
                            assert(loaded.slots()[i].is_some());
                            assert(full.slots()[i] == loaded.slots()[i]);
                            assert(positions(before).contains(v));
                            let j = choose|j: int| 0 <= j < before.len() && positions(before)[j] == v;
                            assert(points@[j] == before[j]);
                        } else {
                            assert(slots[i] == Some(v));
                            let a = lemma_slot_occupied(slots, i);
                            assert(points@[before.len() + a].position_spec() == found[a]);
                        }
                    } else {
                        let o = choose|o: int|
                            0 <= o < outside@.len() && !far(
                                (#[trigger] outside@[o]).coords(),
                                x,
                                unit,
                                periodic,
                            );
                        assert(positions(before).contains(outside@[o]));
                        let j = choose|j: int|
                            0 <= j < before.len() && positions(before)[j] == outside@[o];
                        assert(points@[j] == before[j]);
                    }
                }
            }
        }
        outcome
    }
}

} // verus!
