//! Squared distances on the lattice, plain and around the torus.

use vstd::prelude::*;
use vstd::arithmetic::power::pow;
use vstd::math::min;
use crate::point::{VecLike, within};
use crate::combination::{
    combination, combinations, each_combination, ints, lemma_combination_drawn,
    lemma_combination_covers, drawn_from,
};
use crate::grid::{CELL, MAX_RESOLUTION, sq_diameter};

verus! {

/// The whole turns around the torus that the periodic distance looks at
/// along each axis.
pub open spec fn turns() -> Seq<int> {
    seq![-1, 0, 1]
}

/// The squared length of `d`.
pub open spec fn norm_sq(d: Seq<int>) -> int
    decreases d.len(),
{
    if d.len() == 0 {
        0
    } else {
        norm_sq(d.drop_last()) + d.last() * d.last()
    }
}

/// The vector from `a` to `b`.
pub open spec fn difference(a: Seq<int>, b: Seq<int>) -> Seq<int> {
    Seq::new(a.len(), |i: int| b[i] - a[i])
}

/// `d` moved by `t[i]` whole turns of `unit` steps along each axis `i`.
pub open spec fn turned(d: Seq<int>, t: Seq<int>, unit: int) -> Seq<int> {
    Seq::new(d.len(), |i: int| d[i] + t[i] * unit)
}

/// The squared length of the `k`-th image of `d`.
pub open spec fn image_sq(d: Seq<int>, unit: int, k: int) -> int {
    norm_sq(turned(d, combination(turns(), k, d.len()), unit))
}

/// The least squared length among the first `count` images of `d`.
pub open spec fn least_image_sq(d: Seq<int>, unit: int, count: nat) -> int
    decreases count,
{
    if count <= 1 {
        image_sq(d, unit, 0)
    } else {
        min(least_image_sq(d, unit, (count - 1) as nat), image_sq(d, unit, count - 1))
    }
}

/// The squared distance from `a` to `b`: on the torus the least over the
/// images of `b` under every combination of one turn back, none, or one
/// turn forth along each axis.
pub open spec fn sqdist_spec(a: Seq<int>, b: Seq<int>, unit: int, periodic: bool) -> int {
    if periodic {
        least_image_sq(difference(a, b), unit, pow(3, a.len()) as nat)
    } else {
        norm_sq(difference(a, b))
    }
}

/// `x`, or the largest `u128` where `x` is larger than that.
pub open spec fn saturated(x: int) -> int {
    if x > u128::MAX {
        u128::MAX as int
    } else {
        x
    }
}

pub proof fn lemma_norm_sq_nonnegative(d: Seq<int>)
    ensures
        norm_sq(d) >= 0,
    decreases d.len(),
{
    if d.len() > 0 {
        lemma_norm_sq_nonnegative(d.drop_last());
        let x = d.last();
        assert(x * x >= 0) by (nonlinear_arith);
    }
}

/// A vector is at least as long as any one of its components.
pub proof fn lemma_norm_sq_component(d: Seq<int>, n: int)
    requires
        0 <= n < d.len(),
    ensures
        norm_sq(d) >= d[n] * d[n],
    decreases d.len(),
{
    lemma_norm_sq_nonnegative(d.drop_last());
    let x = d.last();
    assert(x * x >= 0) by (nonlinear_arith);
    if n < d.len() - 1 {
        lemma_norm_sq_component(d.drop_last(), n);
    }
}

/// The squared length of the image of the vector from `v1` to `v2` under
/// the turns `t`, saturated.
fn image_norm<V: VecLike>(v1: V, v2: V, t: V, unit: i128) -> (r: u128)
    requires
        within(v1.coords(), MAX_RESOLUTION as int),
        within(v2.coords(), MAX_RESOLUTION as int),
        within(t.coords(), 1),
        0 <= unit <= MAX_RESOLUTION,
    ensures
        r == saturated(norm_sq(turned(difference(v1.coords(), v2.coords()), t.coords(), unit as int))),
{
    let dim = V::dim();
    let mut acc: u128 = 0;
    let mut n: usize = 0;
    proof {
        v1.lemma_dim();
        v2.lemma_dim();
        t.lemma_dim();
    }
    let ghost image = turned(difference(v1.coords(), v2.coords()), t.coords(), unit as int);
    while n < dim
        invariant
            n <= dim,
            dim == V::dim_spec(),
            v1.coords().len() == dim,
            v2.coords().len() == dim,
            t.coords().len() == dim,
            within(v1.coords(), MAX_RESOLUTION as int),
            within(v2.coords(), MAX_RESOLUTION as int),
            within(t.coords(), 1),
            0 <= unit <= MAX_RESOLUTION,
            image == turned(difference(v1.coords(), v2.coords()), t.coords(), unit as int),
            acc == saturated(norm_sq(image.take(n as int))),
        decreases dim - n,
    {
        let a = v1.get(n);
        let b = v2.get(n);
        let s = t.get(n);
        assert(-1 <= t.coords()[n as int] <= 1);
        assert(-MAX_RESOLUTION <= v1.coords()[n as int] <= MAX_RESOLUTION);
        assert(-MAX_RESOLUTION <= v2.coords()[n as int] <= MAX_RESOLUTION);
        let shift: i128 = if s < 0 {
            -unit
        } else if s > 0 {
            unit
        } else {
            0
        };
        assert(shift == s * unit) by (nonlinear_arith)
            requires
                s == -1 || s == 0 || s == 1,
                s == -1 ==> shift == -unit,
                s == 0 ==> shift == 0,
                s == 1 ==> shift == unit,
        ;
        let x: i128 = b - a + shift;
        let ax: u128 = if x < 0 {
            (-x) as u128
        } else {
            x as u128
        };
        let term: u128 = if ax >= 0x1_0000_0000_0000_0000 {
            proof {
                assert(ax * ax > u128::MAX) by (nonlinear_arith)
                    requires
                        ax >= 0x1_0000_0000_0000_0000,
                ;
            }
            u128::MAX
        } else {
            proof {
                assert(ax * ax <= u128::MAX) by (nonlinear_arith)
                    requires
                        ax < 0x1_0000_0000_0000_0000,
                ;
            }
            ax * ax
        };
        proof {
            let pre = image.take(n as int);
            let next = image.take(n + 1);
            assert(next.drop_last() =~= pre);
            assert(next.last() == x);
            assert(ax * ax == x * x) by (nonlinear_arith)
                requires
                    ax == x || ax == -x,
            ;
            lemma_norm_sq_nonnegative(pre);
            assert(term == saturated(x * x));
        }
        acc = match acc.checked_add(term) {
            Some(sum) => sum,
            None => u128::MAX,
        };
        n += 1;
    }
    proof {
        assert(image.take(n as int) =~= image);
    }
    acc
}

/// The squared distance from `v1` to `v2`, saturated at the largest value
/// that the result can hold.
pub fn sqdist<V: VecLike>(v1: V, v2: V, resolution: i128, periodicity: bool) -> (r: u128)
    requires
        within(v1.coords(), MAX_RESOLUTION as int),
        within(v2.coords(), MAX_RESOLUTION as int),
        0 <= resolution <= MAX_RESOLUTION,
        periodicity ==> pow(3, V::dim_spec()) <= usize::MAX,
    ensures
        r == saturated(sqdist_spec(v1.coords(), v2.coords(), resolution as int, periodicity)),
{
    proof {
        v1.lemma_dim();
        v2.lemma_dim();
    }
    let ghost d = difference(v1.coords(), v2.coords());
    if periodicity {
        let choices: [i128; 3] = [-1, 0, 1];
        let mut it = each_combination::<V>(choices.as_slice());
        proof {
            assert(ints(choices@) =~= turns());
        }
        let ghost total = pow(3, V::dim_spec());
        let ghost mut done: int = 0;
        let mut best: u128 = u128::MAX;
        let mut next = it.next();
        while next.is_some()
            invariant
                it.wf(),
                it.choices() == turns(),
                total == combinations(turns(), V::dim_spec()),
                d == difference(v1.coords(), v2.coords()),
                d.len() == V::dim_spec(),
                within(v1.coords(), MAX_RESOLUTION as int),
                within(v2.coords(), MAX_RESOLUTION as int),
                0 <= resolution <= MAX_RESOLUTION,
                0 <= done <= total,
                match next {
                    Some(t) => {
                        &&& done < total
                        &&& it.position() == done + 1
                        &&& t.coords() == combination(turns(), done, V::dim_spec())
                    },
                    None => done == total && it.position() == done,
                },
                best == if done == 0 {
                    u128::MAX as int
                } else {
                    saturated(least_image_sq(d, resolution as int, done as nat))
                },
            decreases total - done,
        {
            let t = next.unwrap();
            proof {
                lemma_combination_drawn(turns(), done, V::dim_spec());
                assert forall|i: int| 0 <= i < t.coords().len() implies -1 <= #[trigger] t.coords()[i]
                    <= 1 by {
                    assert(turns().contains(t.coords()[i]));
                }
            }
            let val = image_norm(v1, v2, t, resolution);
            if val < best {
                best = val;
            }
            proof {
                done = done + 1;
            }
            next = it.next();
        }
        proof {
            vstd::arithmetic::power::lemma_pow_positive(3, V::dim_spec());
        }
        best
    } else {
        let zero = V::zero();
        proof {
            zero.lemma_dim();
            assert(turned(d, zero.coords(), 0) =~= d);
        }
        image_norm(v1, v2, zero, 0)
    }
}

/// The least among the first `count` images is one of them and no larger
/// than any of them.
pub proof fn lemma_least_among(d: Seq<int>, unit: int, count: nat) -> (k: int)
    ensures
        0 <= k,
        count > 0 ==> k < count,
        least_image_sq(d, unit, count) == image_sq(d, unit, k),
        forall|j: int| 0 <= j < count ==> least_image_sq(d, unit, count) <= image_sq(d, unit, j),
    decreases count,
{
    if count <= 1 {
        0
    } else {
        let k = lemma_least_among(d, unit, (count - 1) as nat);
        if least_image_sq(d, unit, (count - 1) as nat) <= image_sq(d, unit, count - 1) {
            k
        } else {
            count - 1
        }
    }
}

/// The periodic distance is no larger than the distance to any image: to
/// `b` moved by one turn back, none, or one turn forth along each axis.
pub proof fn lemma_periodic_lower(a: Seq<int>, b: Seq<int>, unit: int, t: Seq<int>)
    requires
        a.len() == b.len(),
        t.len() == a.len(),
        drawn_from(t, turns()),
    ensures
        sqdist_spec(a, b, unit, true) <= norm_sq(turned(difference(a, b), t, unit)),
{
    let d = difference(a, b);
    let k = lemma_combination_covers(turns(), t);
    vstd::arithmetic::power::lemma_pow_positive(3, a.len());
    let _ = lemma_least_among(d, unit, pow(3, a.len()) as nat);
    assert(image_sq(d, unit, k) == norm_sq(turned(d, t, unit)));
}

/// The periodic distance is the distance to one of the images.
pub proof fn lemma_periodic_attained(a: Seq<int>, b: Seq<int>, unit: int) -> (t: Seq<int>)
    requires
        a.len() == b.len(),
    ensures
        t.len() == a.len(),
        drawn_from(t, turns()),
        sqdist_spec(a, b, unit, true) == norm_sq(turned(difference(a, b), t, unit)),
{
    let d = difference(a, b);
    vstd::arithmetic::power::lemma_pow_positive(3, a.len());
    let k = lemma_least_among(d, unit, pow(3, a.len()) as nat);
    lemma_combination_drawn(turns(), k, a.len());
    combination(turns(), k, a.len())
}

/// Two points are far enough from each other for both to be samples.
pub open spec fn far(a: Seq<int>, b: Seq<int>, unit: int, periodic: bool) -> bool {
    sqdist_spec(a, b, unit, periodic) >= sq_diameter(a.len())
}

/// Every point of `samples` is far enough from `c`.
pub open spec fn all_far<V: VecLike>(
    samples: Seq<V>,
    c: Seq<int>,
    unit: int,
    periodic: bool,
) -> bool {
    forall|i: int| 0 <= i < samples.len() ==> far(#[trigger] samples[i].coords(), c, unit, periodic)
}

/// Every point of `samples` lies within the bounds that distances are
/// computed for.
pub open spec fn all_within<V: VecLike>(samples: Seq<V>) -> bool {
    forall|i: int| 0 <= i < samples.len() ==> within(#[trigger] samples[i].coords(), MAX_RESOLUTION as int)
}

/// The square of the diameter for points of type `V`.
pub fn threshold<V: VecLike>() -> (r: u128)
    requires
        sq_diameter(V::dim_spec()) <= u128::MAX,
    ensures
        r == sq_diameter(V::dim_spec()),
{
    let dim = V::dim();
    let cell_sq: u128 = 81129638414606681695789005144064;
    proof {
        assert((CELL as int) * (CELL as int) == cell_sq) by (nonlinear_arith)
            requires
                CELL == 9007199254740992,
                cell_sq == 81129638414606681695789005144064,
        ;
        assert(dim * ((CELL as int) * (CELL as int)) == dim * (CELL as int) * (CELL as int))
            by (nonlinear_arith);
    }
    (dim as u128) * cell_sq
}

/// Whether `sample` keeps its distance from every point of `samples`.
pub fn is_valid<V: VecLike>(samples: &[V], sample: V, resolution: i128, periodicity: bool) -> (r:
    bool)
    requires
        all_within(samples@),
        within(sample.coords(), MAX_RESOLUTION as int),
        0 <= resolution <= MAX_RESOLUTION,
        periodicity ==> pow(3, V::dim_spec()) <= usize::MAX,
        sq_diameter(V::dim_spec()) <= u128::MAX,
    ensures
        r == all_far(samples@, sample.coords(), resolution as int, periodicity),
{
    let limit = threshold::<V>();
    let mut i: usize = 0;
    proof {
        sample.lemma_dim();
    }
    while i < samples.len()
        invariant
            i <= samples@.len(),
            all_within(samples@),
            within(sample.coords(), MAX_RESOLUTION as int),
            0 <= resolution <= MAX_RESOLUTION,
            periodicity ==> pow(3, V::dim_spec()) <= usize::MAX,
            limit == sq_diameter(V::dim_spec()),
            limit <= u128::MAX,
            sample.coords().len() == V::dim_spec(),
            forall|j: int|
                0 <= j < i ==> far(
                    #[trigger] samples@[j].coords(),
                    sample.coords(),
                    resolution as int,
                    periodicity,
                ),
        decreases samples@.len() - i,
    {
        let v = samples[i];
        proof {
            v.lemma_dim();
            assert(within(samples@[i as int].coords(), MAX_RESOLUTION as int));
        }
        if sqdist(v, sample, resolution, periodicity) < limit {
            proof {
                assert(!far(samples@[i as int].coords(), sample.coords(), resolution as int, periodicity));
            }
            return false;
        }
        i += 1;
    }
    true
}

} // verus!
