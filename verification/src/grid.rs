//! The grid of top-level cells, each of which holds at most one sample.

use vstd::prelude::*;
use vstd::arithmetic::power::{pow, lemma_pow0, lemma_pow_increases};
use crate::point::{VecLike, within};
use crate::index::{encode, encode_spec, get_parent, parent_spec};
use crate::radix::lemma_pow_step;
use crate::sample::Sample;

verus! {

/// The number of halvings a top-level cell admits: a cell of level `k` is
/// `2^(LEVELS - k)` lattice steps wide, so one of level `LEVELS` is a single
/// lattice point.
pub const LEVELS: usize = 53;

/// The width of a top-level cell in lattice steps, `2^LEVELS`.
pub const CELL: i128 = 9007199254740992;

/// The finest resolution a grid is built for: the lattice steps that make
/// up the unit length number at most this.
pub const MAX_RESOLUTION: i128 = 0x2000_0000_0000_0000_0000_0000_0000_0000;

/// The square of the disks' diameter in lattice steps. The diameter is the
/// diagonal of a cell.
pub open spec fn sq_diameter(dim: nat) -> int {
    dim * (CELL as int) * (CELL as int)
}

/// The radius that `resolution` stands for is at most half the square root
/// of two: the square of the diameter is at most twice the square of the
/// unit length.
pub open spec fn radius_fits(resolution: int, dim: nat) -> bool {
    2 * resolution * resolution >= sq_diameter(dim)
}

/// A dense grid of `side` cells along each axis over the unit cube.
///
/// The lattice has `resolution` steps to the unit length and a cell is
/// `CELL` steps wide, so that `side` is the whole number of cells that fit
/// into the unit length. The diameter of the disks is the diagonal of a
/// cell: no cell can hold two samples.
pub struct Grid<V: VecLike> {
    data: Vec<Option<V>>,
    side: usize,
    cell: i128,
    resolution: i128,
    periodicity: bool,
}

/// The samples that the slots hold, in the order of the slots.
pub open spec fn occupied<V>(slots: Seq<Option<V>>) -> Seq<V>
    decreases slots.len(),
{
    if slots.len() == 0 {
        Seq::empty()
    } else {
        match slots.last() {
            Some(v) => occupied(slots.drop_last()).push(v),
            None => occupied(slots.drop_last()),
        }
    }
}

/// The sample in each occupied slot is found in the list of samples, and
/// later slots come later in the list.
pub proof fn lemma_occupied_slot<V>(slots: Seq<Option<V>>, j: int) -> (i: int)
    requires
        0 <= j < occupied(slots).len(),
    ensures
        0 <= i < slots.len(),
        slots[i] == Some(occupied(slots)[j]),
        occupied(slots.take(i)).len() == j,
    decreases slots.len(),
{
    let rest = slots.drop_last();
    if slots.last().is_some() && j == occupied(rest).len() {
        assert(slots.take(slots.len() - 1) =~= rest);
        slots.len() - 1
    } else {
        let i = lemma_occupied_slot(rest, j);
        assert(slots.take(i) =~= rest.take(i));
        i
    }
}

/// The sample of an occupied slot is in the list of samples, after those
/// of the slots before it.
pub proof fn lemma_slot_occupied<V>(slots: Seq<Option<V>>, i: int) -> (j: int)
    requires
        0 <= i < slots.len(),
        slots[i].is_some(),
    ensures
        0 <= j < occupied(slots).len(),
        slots[i] == Some(occupied(slots)[j]),
    decreases slots.len(),
{
    let rest = slots.drop_last();
    if i == slots.len() - 1 {
        occupied(rest).len() as int
    } else {
        lemma_slot_occupied(rest, i)
    }
}

/// A list of slots holds no fewer samples than any of its beginnings.
pub proof fn lemma_occupied_grows<V>(slots: Seq<Option<V>>, i: int)
    requires
        0 <= i <= slots.len(),
    ensures
        occupied(slots.take(i)).len() <= occupied(slots).len(),
        i < slots.len() && slots[i].is_some() ==> occupied(slots.take(i)).len() < occupied(
            slots,
        ).len(),
    decreases slots.len(),
{
    if i == slots.len() {
        assert(slots.take(i) =~= slots);
    } else {
        let rest = slots.drop_last();
        assert(slots.take(i) =~= rest.take(i));
        if i < rest.len() {
            lemma_occupied_grows(rest, i);
        } else {
            assert(rest.take(i) =~= rest);
        }
    }
}

/// `side` to the power `dim`: the number of cells of a grid.
pub fn cell_count(side: usize, dim: usize) -> (r: usize)
    requires
        pow(side as int, dim as nat) <= usize::MAX,
    ensures
        r == pow(side as int, dim as nat),
{
    let mut r: usize = 1;
    let mut i: usize = 0;
    proof {
        lemma_pow0(side as int);
    }
    while i < dim
        invariant
            i <= dim,
            r == pow(side as int, i as nat),
            pow(side as int, dim as nat) <= usize::MAX,
        decreases dim - i,
    {
        proof {
            lemma_pow_step(side as int, i as nat);
            if side > 0 {
                lemma_pow_increases(side as nat, (i + 1) as nat, dim as nat);
            } else {
                assert(r * side == 0) by (nonlinear_arith)
                    requires
                        side == 0,
                ;
            }
        }
        r = r * side;
        i += 1;
    }
    r
}

impl<V: VecLike> Grid<V> {
    /// An empty grid over a lattice of `resolution` steps to the unit
    /// length, which stands for a radius above zero and of at most half the
    /// square root of two.
    pub fn new(resolution: i128, periodicity: bool) -> (g: Grid<V>)
        requires
            0 < resolution <= MAX_RESOLUTION,
            radius_fits(resolution as int, V::dim_spec()),
            resolution / CELL <= usize::MAX,
            pow(resolution as int / CELL as int, V::dim_spec()) <= usize::MAX,
        ensures
            g.wf(),
            g.resolution_spec() == resolution,
            g.side_spec() == resolution / CELL,
            g.periodic() == periodicity,
            g.slots().len() == pow(resolution as int / CELL as int, V::dim_spec()),
            forall|i: int| 0 <= i < g.slots().len() ==> g.slots()[i].is_none(),
    {
        let side = (resolution / CELL) as usize;
        let cells = cell_count(side, V::dim());
        let mut data: Vec<Option<V>> = Vec::new();
        let mut i: usize = 0;
        while i < cells
            invariant
                i <= cells,
                data@.len() == i,
                forall|j: int| 0 <= j < i ==> data@[j].is_none(),
            decreases cells - i,
        {
            data.push(None);
            i += 1;
        }
        Grid { data, side, cell: CELL, resolution, periodicity }
    }

    /// The number of cells.
    pub fn cells(&self) -> (n: usize)
        requires
            self.wf(),
        ensures
            n == self.slots().len(),
            n == pow(self.side_spec(), V::dim_spec()),
    {
        self.data.len()
    }

    /// The number of cells along each axis.
    pub fn side(&self) -> (s: usize)
        ensures
            s == self.side_spec(),
    {
        self.side
    }

    /// The width of a cell in lattice steps.
    pub fn cell(&self) -> (w: i128)
        requires
            self.wf(),
        ensures
            w == CELL,
    {
        self.cell
    }

    /// The number of lattice steps that make up the unit length.
    pub fn resolution(&self) -> (r: i128)
        ensures
            r == self.resolution_spec(),
    {
        self.resolution
    }

    /// Whether opposite faces of the cube are glued together.
    pub fn periodicity(&self) -> (p: bool)
        ensures
            p == self.periodic(),
    {
        self.periodicity
    }

    /// What follows from `wf` for those who cannot see inside.
    pub proof fn lemma_wf(&self)
        requires
            self.wf(),
        ensures
            0 <= self.resolution_spec() <= MAX_RESOLUTION,
            0 <= self.side_spec() <= usize::MAX,
            self.side_spec() == self.resolution_spec() / (CELL as int),
            self.side_spec() * CELL <= self.resolution_spec(),
            self.slots().len() == pow(self.side_spec(), V::dim_spec()),
            pow(self.side_spec(), V::dim_spec()) <= usize::MAX,
    {
        let r = self.resolution as int;
        let c = CELL as int;
        vstd::arithmetic::div_mod::lemma_fundamental_div_mod(r, c);
        vstd::arithmetic::div_mod::lemma_mod_bound(r, c);
        assert((r / c) * c <= r) by (nonlinear_arith)
            requires
                r == c * (r / c) + r % c,
                0 <= r % c,
        ;
    }

    /// The top-level cell that holds the cell at `index` of level `level`.
    pub fn get_parent(&self, index: V, level: usize) -> (r: V)
        ensures
            r.coords() == parent_spec(index.coords(), level as nat),
    {
        get_parent(index, level)
    }

    /// Hands the samples over: appends one `Sample` for each cell that
    /// holds a point, in the order of the cells.
    pub fn into_extended_samples(self, samples: &mut Vec<Sample<V>>)
        requires
            self.wf(),
        ensures
            final(samples)@.len() == old(samples)@.len() + occupied(self.slots()).len(),
            forall|i: int| 0 <= i < old(samples)@.len() ==> final(samples)@[i] == old(samples)@[i],
            forall|j: int|
                0 <= j < occupied(self.slots()).len() ==> {
                    &&& (#[trigger] final(samples)@[old(samples)@.len() + j]).position_spec() == occupied(
                        self.slots(),
                    )[j]
                    &&& final(samples)@[old(samples)@.len() + j].resolution_spec()
                        == self.resolution_spec()
                },
    {
        let n = self.data.len();
        let mut i: usize = 0;
        let ghost before = samples@;
        while i < n
            invariant
                i <= n,
                n == self.data@.len(),
                samples@.len() == before.len() + occupied(self.data@.take(i as int)).len(),
                forall|k: int| 0 <= k < before.len() ==> samples@[k] == before[k],
                forall|j: int|
                    0 <= j < occupied(self.data@.take(i as int)).len() ==> {
                        &&& (#[trigger] samples@[before.len() + j]).position_spec() == occupied(
                            self.data@.take(i as int),
                        )[j]
                        &&& samples@[before.len() + j].resolution_spec() == self.resolution as int
                    },
            decreases n - i,
        {
            proof {
                assert(self.data@.take(i + 1).drop_last() =~= self.data@.take(i as int));
            }
            match self.data[i] {
                Some(v) => {
                    samples.push(Sample::new(v, self.resolution));
                },
                None => {},
            }
            i += 1;
        }
        proof {
            assert(self.data@.take(n as int) =~= self.data@);
        }
    }

    /// Empties the slot with flat index `slot`.
    pub fn vacate(&mut self, slot: usize)
        requires
            old(self).wf(),
            slot < old(self).slots().len(),
        ensures
            final(self).wf(),
            final(self).side_spec() == old(self).side_spec(),
            final(self).resolution_spec() == old(self).resolution_spec(),
            final(self).periodic() == old(self).periodic(),
            final(self).slots() == old(self).slots().update(slot as int, None),
    {
        self.data[slot] = None;
    }

    /// What each cell holds, by flat index.
    pub closed spec fn slots(&self) -> Seq<Option<V>> {
        self.data@
    }

    /// The number of cells along each axis.
    pub closed spec fn side_spec(&self) -> int {
        self.side as int
    }

    /// The number of lattice steps that make up the unit length.
    pub closed spec fn resolution_spec(&self) -> int {
        self.resolution as int
    }

    /// Whether opposite faces of the cube are glued together.
    pub closed spec fn periodic(&self) -> bool {
        self.periodicity
    }

    /// The grid has one slot for each cell, and as many cells along an axis
    /// as fit into the unit length.
    pub closed spec fn wf(&self) -> bool {
        &&& self.cell == CELL
        &&& 0 <= self.resolution <= MAX_RESOLUTION
        &&& self.side == self.resolution / CELL
        &&& self.data@.len() == pow(self.side as int, V::dim_spec())
        &&& pow(self.side as int, V::dim_spec()) <= usize::MAX
    }

    /// Every point that the grid holds lies within the bounds that
    /// distances are computed for.
    pub open spec fn bounded(&self) -> bool {
        forall|i: int|
            0 <= i < self.slots().len() ==> match #[trigger] self.slots()[i] {
                Some(v) => within(v.coords(), MAX_RESOLUTION as int),
                None => true,
            }
    }

    /// What the grid holds at the coordinates `c`: nothing at all where it
    /// has no cell there, else the cell's content.
    pub open spec fn at(&self, c: Seq<int>) -> Option<Option<V>> {
        match encode_spec(c, self.side_spec(), self.periodic()) {
            Some(i) => Some(self.slots()[i]),
            None => None,
        }
    }

    /// The slot of the cell at `index`, or nothing where the grid has no
    /// such cell.
    pub fn get(&self, index: V) -> (r: Option<&Option<V>>)
        requires
            self.wf(),
            self.periodic() ==> self.side_spec() > 0,
        ensures
            match r {
                Some(slot) => self.at(index.coords()) == Some(*slot),
                None => self.at(index.coords()).is_none(),
            },
    {
        match encode(&index, self.side, self.periodicity) {
            Some(t) => {
                proof {
                    index.lemma_dim();
                    crate::index::lemma_encode_bound(index.coords(), self.side as int, self.periodicity);
                }
                Some(&self.data[t])
            },
            None => None,
        }
    }

    /// The slot of the cell at `index`, to be written to, or nothing where
    /// the grid has no such cell.
    pub fn get_mut(&mut self, index: V) -> (r: Option<&mut Option<V>>)
        requires
            old(self).wf(),
            old(self).periodic() ==> old(self).side_spec() > 0,
        ensures
            final(self).wf(),
            final(self).side_spec() == old(self).side_spec(),
            final(self).resolution_spec() == old(self).resolution_spec(),
            final(self).periodic() == old(self).periodic(),
            match r {
                Some(slot) => {
                    &&& encode_spec(index.coords(), old(self).side_spec(), old(self).periodic()).is_some()
                    &&& *slot == old(self).slots()[encode_spec(index.coords(), old(self).side_spec(), old(self).periodic()).unwrap()]
                    &&& final(self).slots() == old(self).slots().update(
                        encode_spec(index.coords(), old(self).side_spec(), old(self).periodic()).unwrap(),
                        *final(slot),
                    )
                },
                None => {
                    &&& encode_spec(index.coords(), old(self).side_spec(), old(self).periodic()).is_none()
                    &&& final(self).slots() == old(self).slots()
                },
            },
    {
        match encode(&index, self.side, self.periodicity) {
            Some(t) => {
                proof {
                    index.lemma_dim();
                    crate::index::lemma_encode_bound(index.coords(), self.side as int, self.periodicity);
                }
                Some(&mut self.data[t])
            },
            None => None,
        }
    }
}

} // verus!
