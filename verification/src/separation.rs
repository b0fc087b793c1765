//! Why the search around a cell is enough: a sample in a cell outside the
//! ring is too far away to matter, as long as the space has at most four
//! axes.

use vstd::prelude::*;
use vstd::arithmetic::div_mod::{lemma_mod_multiples_vanish, lemma_small_mod};
use crate::combination::{combinations, lemma_combination_covers};
use crate::distance::{
    norm_sq, difference, turned, turns, sqdist_spec, far, lemma_norm_sq_component,
    lemma_periodic_attained, lemma_periodic_lower,
};
use crate::grid::{CELL, sq_diameter};
use crate::index::{encode_spec, wrapped};
use crate::radix::all_below;
use crate::random::{in_cell, lemma_cell_is_pow2};
use crate::ring::{neighbour, ring};
use crate::point::plus_spec;

verus! {

/// The largest number of axes for which a sample outside the ring of cells
/// around a point is certain to lie a whole diameter away from it.
pub const RING_SUFFICES: usize = 4;

/// `d` with every component negated.
pub open spec fn negated(d: Seq<int>) -> Seq<int> {
    Seq::new(d.len(), |i: int| -d[i])
}

pub proof fn lemma_norm_sq_negated(d: Seq<int>)
    ensures
        norm_sq(negated(d)) == norm_sq(d),
    decreases d.len(),
{
    if d.len() > 0 {
        lemma_norm_sq_negated(d.drop_last());
        assert(negated(d).drop_last() =~= negated(d.drop_last()));
        let x = d.last();
        assert((-x) * (-x) == x * x) by (nonlinear_arith);
    }
}

/// The distance from `a` to `b` is the distance from `b` to `a`.
pub proof fn lemma_sqdist_symmetric(a: Seq<int>, b: Seq<int>, unit: int, periodic: bool)
    requires
        a.len() == b.len(),
    ensures
        sqdist_spec(a, b, unit, periodic) == sqdist_spec(b, a, unit, periodic),
{
    let d = difference(a, b);
    let e = difference(b, a);
    assert(e =~= negated(d));
    assert(d =~= negated(e));
    if periodic {
        lemma_least_le(a, b, unit);
        lemma_least_le(b, a, unit);
    } else {
        lemma_norm_sq_negated(d);
    }
}

proof fn lemma_least_le(a: Seq<int>, b: Seq<int>, unit: int)
    requires
        a.len() == b.len(),
    ensures
        sqdist_spec(b, a, unit, true) <= sqdist_spec(a, b, unit, true),
{
    let d = difference(a, b);
    let e = difference(b, a);
    let t = lemma_periodic_attained(a, b, unit);
    let s = negated(t);
    assert forall|i: int| 0 <= i < s.len() implies turns().contains(#[trigger] s[i]) by {
        assert(turns().contains(t[i]));
        let x = t[i];
        assert(x == -1 || x == 0 || x == 1);
        assert(turns()[0] == -1 && turns()[1] == 0 && turns()[2] == 1);
    }
    lemma_periodic_lower(b, a, unit, s);
    assert forall|i: int| 0 <= i < d.len() implies turned(e, s, unit)[i] == -turned(d, t, unit)[i] by {
        assert((-t[i]) * unit == -(t[i] * unit)) by (nonlinear_arith);
    }
    assert(turned(e, s, unit) =~= negated(turned(d, t, unit)));
    lemma_norm_sq_negated(turned(d, t, unit));
}

/// Along one axis: the offset `t` leads from the cell at `p` to the cell
/// at `q`.
pub open spec fn reaches(p: int, t: int, q: int, side: int, periodic: bool) -> bool {
    if periodic {
        (p + t) % side == q
    } else {
        p + t == q
    }
}

/// Along one axis: the cell at `q` cannot be reached from the cell at `p`
/// by any offset of the ring.
pub open spec fn axis_beyond(p: int, q: int, side: int, periodic: bool) -> bool {
    forall|t: int| -2 <= t <= 2 ==> !#[trigger] reaches(p, t, q, side, periodic)
}

/// Two points whose cells are beyond each other's ring along an axis lie
/// more than two cell widths apart along it, whichever whole turn is
/// taken.
proof fn lemma_axis_apart(
    p: int,
    q: int,
    c: int,
    v: int,
    side: int,
    unit: int,
    periodic: bool,
    u: int,
)
    requires
        0 <= p < side,
        0 <= q < side,
        p * CELL <= c < (p + 1) * CELL,
        q * CELL <= v < (q + 1) * CELL,
        unit >= side * CELL,
        axis_beyond(p, q, side, periodic),
        -1 <= u <= 1,
        !periodic ==> u == 0,
    ensures
        (v - c + u * unit) * (v - c + u * unit) >= 4 * CELL * CELL,
{
    let delta = q - p;
    if periodic {
        if -2 <= delta <= 2 {
            lemma_small_mod(q as nat, side as nat);
            assert(!reaches(p, delta, q, side, periodic));
        } else if delta >= 3 {
            if side - delta <= 2 {
                let t = delta - side;
                lemma_mod_multiples_vanish(-1, q, side);
                lemma_small_mod(q as nat, side as nat);
                assert(p + t == side * (-1) + q);
                assert(!reaches(p, t, q, side, periodic));
            }
        } else {
            if side + delta <= 2 {
                let t = delta + side;
                lemma_mod_multiples_vanish(1, q, side);
                lemma_small_mod(q as nat, side as nat);
                assert(p + t == side * 1 + q);
                assert(!reaches(p, t, q, side, periodic));
            }
        }
    } else {
        if -2 <= delta <= 2 {
            assert(!reaches(p, delta, q, side, periodic));
        }
    }
    assert(delta >= 3 || delta <= -3);
    assert(periodic ==> side - delta >= 3 && side + delta >= 3);
    let x = v - c + u * unit;
    assert(u * unit == if u == 0 {
        0
    } else if u == 1 {
        unit
    } else {
        -unit
    }) by (nonlinear_arith)
        requires
            -1 <= u <= 1,
    ;
    assert(x >= 2 * CELL || x <= -2 * CELL);
    assert(x * x >= 4 * CELL * CELL) by (nonlinear_arith)
        requires
            x >= 2 * CELL || x <= -2 * CELL,
            CELL > 0,
    ;
}

/// A sample in a grid cell that no offset of the ring reaches from the
/// cell of `c` is far from `c`, in a space of at most four axes.
pub proof fn lemma_far_beyond_ring(
    p: Seq<int>,
    q: Seq<int>,
    c: Seq<int>,
    v: Seq<int>,
    side: int,
    unit: int,
    periodic: bool,
)
    requires
        p.len() <= RING_SUFFICES,
        q.len() == p.len(),
        in_cell(c, p, 0),
        in_cell(v, q, 0),
        all_below(p, side),
        all_below(q, side),
        unit >= side * CELL,
        forall|k: int|
            0 <= k < combinations(ring(), p.len()) ==> encode_spec(
                #[trigger] neighbour(p, k),
                side,
                periodic,
            ) != encode_spec(q, side, periodic),
    ensures
        far(v, c, unit, periodic),
        far(c, v, unit, periodic),
{
    let dim = p.len();
    lemma_cell_is_pow2();
    // Some axis along which no offset of the ring leads from `p` to `q`.
    if forall|n: int| 0 <= n < dim ==> !axis_beyond(#[trigger] p[n], q[n], side, periodic) {
        let t = Seq::new(
            dim,
            |n: int| choose|t: int| -2 <= t <= 2 && #[trigger] reaches(p[n], t, q[n], side, periodic),
        );
        assert forall|n: int| 0 <= n < dim implies -2 <= #[trigger] t[n] <= 2 && reaches(
            p[n],
            t[n],
            q[n],
            side,
            periodic,
        ) by {
            assert(!axis_beyond(p[n], q[n], side, periodic));
        }
        assert forall|n: int| 0 <= n < t.len() implies ring().contains(#[trigger] t[n]) by {
            let x = t[n];
            assert(ring()[0] == -2 && ring()[1] == -1 && ring()[2] == 0 && ring()[3] == 1
                && ring()[4] == 2);
            assert(x == -2 || x == -1 || x == 0 || x == 1 || x == 2);
        }
        let k = lemma_combination_covers(ring(), t);
        let moved = neighbour(p, k);
        assert(moved =~= plus_spec(p, t));
        assert forall|n: int| 0 <= n < dim implies q[n] % side == q[n] by {
            assert(0 <= q[n] < side);
            lemma_small_mod(q[n] as nat, side as nat);
        }
        assert(wrapped(moved, side, periodic) =~= wrapped(q, side, periodic));
        if !periodic {
            assert(moved =~= q);
        }
        assert(encode_spec(moved, side, periodic) == encode_spec(q, side, periodic));
        assert(false);
    }
    let n = choose|n: int| 0 <= n < dim && axis_beyond(#[trigger] p[n], q[n], side, periodic);
    assert(0 <= p[n] < side && 0 <= q[n] < side);
    assert(p[n] * CELL <= c[n] < (p[n] + 1) * CELL);
    assert(q[n] * CELL <= v[n] < (q[n] + 1) * CELL);
    assert(sq_diameter(dim) <= 4 * CELL * CELL) by (nonlinear_arith)
        requires
            dim <= 4,
            sq_diameter(dim) == dim * (CELL as int) * (CELL as int),
    ;
    // From `v` to `c`.
    let d = difference(v, c);
    let e = difference(c, v);
    if periodic {
        let s = lemma_periodic_attained(v, c, unit);
        assert(turns().contains(s[n]));
        lemma_axis_apart(p[n], q[n], c[n], v[n], side, unit, periodic, -s[n]);
        lemma_norm_sq_component(turned(d, s, unit), n);
        let x = v[n] - c[n] + (-s[n]) * unit;
        let y = turned(d, s, unit)[n];
        assert(y == -x) by (nonlinear_arith)
            requires
                y == c[n] - v[n] + s[n] * unit,
                x == v[n] - c[n] + (-s[n]) * unit,
        ;
        assert(y * y == x * x) by (nonlinear_arith)
            requires
                y == -x,
        ;
        let r = lemma_periodic_attained(c, v, unit);
        assert(turns().contains(r[n]));
        lemma_axis_apart(p[n], q[n], c[n], v[n], side, unit, periodic, r[n]);
        lemma_norm_sq_component(turned(e, r, unit), n);
    } else {
        lemma_axis_apart(p[n], q[n], c[n], v[n], side, unit, periodic, 0);
        lemma_norm_sq_component(d, n);
        lemma_norm_sq_component(e, n);
        let x = v[n] - c[n];
        assert(x + 0 * unit == x) by (nonlinear_arith);
        assert((-x) * (-x) == x * x) by (nonlinear_arith);
    }
}

} // verus!
