//! Addressing: from a cell's coordinates to its place in the grid's flat
//! store and back, and from a cell of a finer level to the top-level cell
//! that holds it.

use vstd::prelude::*;
use vstd::arithmetic::power::{pow, lemma_pow0, lemma0_pow, lemma_pow_increases};
use vstd::arithmetic::power2::{
    pow2, lemma_pow2_pos, lemma_pow2_adds, lemma_pow2_unfold, lemma_pow2_strictly_increases,
    lemma2_to64, lemma2_to64_rest,
};
use vstd::arithmetic::div_mod::{
    lemma_fundamental_div_mod, lemma_fundamental_div_mod_converse, lemma_mod_bound,
};
use crate::point::VecLike;
use crate::radix::{
    all_below, rank, digits, lemma_rank_bound, lemma_digits_len, lemma_digits_index,
    lemma_digits_rank, lemma_rank_digits, lemma_div_twice,
};

verus! {

/// The largest level whose cell count per top-level cell, `2^level`, is
/// computed as it stands; beyond it every quotient is 0 or -1.
pub const MAX_SHIFT: usize = 126;

/// The coordinates as the grid reads them: wrapped around on a periodic
/// grid, unchanged otherwise.
pub open spec fn wrapped(c: Seq<int>, side: int, periodic: bool) -> Seq<int> {
    Seq::new(c.len(), |i: int| if periodic { c[i] % side } else { c[i] })
}

/// The flat index of the cell at `c` in a grid of `side` cells per axis:
/// none where a bounded grid has no such cell.
pub open spec fn encode_spec(c: Seq<int>, side: int, periodic: bool) -> Option<int> {
    if periodic || all_below(c, side) {
        Some(rank(wrapped(c, side, periodic), side))
    } else {
        None
    }
}

/// The coordinates of the cell with flat index `index`: none where the grid
/// has no such cell.
pub open spec fn decode_spec(index: int, side: int, dim: nat) -> Option<Seq<int>> {
    if 0 <= index < pow(side, dim) {
        Some(digits(index, side, dim))
    } else {
        None
    }
}

/// The top-level cell that holds the cell at `c` of level `level`.
pub open spec fn parent_spec(c: Seq<int>, level: nat) -> Seq<int> {
    Seq::new(c.len(), |i: int| c[i] / (pow2(level) as int))
}

/// Calls `modulo::Mod::modulo` on two `i128`. Taken on trust: for a
/// positive modulus the result is the remainder that is never negative,
/// the one that goes with rounding the quotient down.
#[verifier::external_body]
fn residue(a: i128, n: i128) -> (r: i128)
    requires
        n > 0,
    ensures
        r == a % n,
{
    ::modulo::Mod::modulo(a, n)
}

/// The flat index of the cell at `v`.
///
/// A periodic grid wraps every coordinate around and never rejects; a
/// bounded grid rejects a coordinate that lies outside `0..side`.
pub fn encode<V: VecLike>(v: &V, side: usize, periodicity: bool) -> (r: Option<usize>)
    requires
        periodicity ==> side > 0,
        pow(side as int, V::dim_spec()) <= usize::MAX,
    ensures
        match r {
            Some(i) => encode_spec(v.coords(), side as int, periodicity) == Some(i as int),
            None => encode_spec(v.coords(), side as int, periodicity).is_none(),
        },
{
    let dim = V::dim();
    let mut index: usize = 0;
    let mut n: usize = 0;
    proof {
        v.lemma_dim();
    }
    let ghost w = wrapped(v.coords(), side as int, periodicity);
    while n < dim
        invariant
            n <= dim,
            dim == V::dim_spec(),
            v.coords().len() == dim,
            w == wrapped(v.coords(), side as int, periodicity),
            periodicity ==> side > 0,
            pow(side as int, dim as nat) <= usize::MAX,
            all_below(w.take(n as int), side as int),
            !periodicity ==> all_below(v.coords().take(n as int), side as int),
            index == rank(w.take(n as int), side as int),
        decreases dim - n,
    {
        let c = v.get(n);
        let cur: usize;
        if periodicity {
            let m = residue(c, side as i128);
            proof {
                lemma_mod_bound(c as int, side as int);
            }
            cur = m as usize;
        } else {
            if c < 0 || c >= side as i128 {
                return None;
            }
            cur = c as usize;
        }
        proof {
            let pre = w.take(n as int);
            let next = w.take(n + 1);
            assert(next.drop_last() =~= pre);
            assert(next.last() == cur);
            assert forall|i: int| 0 <= i < next.len() implies 0 <= #[trigger] next[i] < side by {
                if i < n {
                    assert(pre[i] == next[i]);
                }
            }
            if !periodicity {
                let cpre = v.coords().take(n as int);
                let cnext = v.coords().take(n + 1);
                assert forall|i: int| 0 <= i < cnext.len() implies 0 <= #[trigger] cnext[i]
                    < side by {
                    if i < n {
                        assert(cpre[i] == cnext[i]);
                    }
                }
            }
            lemma_rank_bound(next, side as int);
            lemma_pow_increases(side as nat, (n + 1) as nat, dim as nat);
            assert(index * side <= rank(next, side as int)) by (nonlinear_arith)
                requires
                    rank(next, side as int) == index * side + cur,
                    cur >= 0,
            ;
        }
        index = index * side + cur;
        n += 1;
    }
    proof {
        assert(w.take(n as int) =~= w);
        assert(v.coords().take(n as int) =~= v.coords());
    }
    Some(index)
}

/// The coordinates of the cell with flat index `index`, or nothing where
/// the grid has fewer cells than that.
pub fn decode<V: VecLike>(index: usize, side: usize) -> (r: Option<V>)
    ensures
        match r {
            Some(v) => decode_spec(index as int, side as int, V::dim_spec()) == Some(v.coords()),
            None => decode_spec(index as int, side as int, V::dim_spec()).is_none(),
        },
{
    let dim = V::dim();
    if dim > 0 && side == 0 {
        proof {
            lemma0_pow(dim as nat);
        }
        return None;
    }
    let mut result = V::zero();
    let mut last = index;
    let mut n = dim;
    proof {
        result.lemma_dim();
        lemma_pow0(side as int);
    }
    while n > 0
        invariant
            n <= dim,
            dim == V::dim_spec(),
            dim > 0 ==> side > 0,
            result.coords().len() == dim,
            pow(side as int, (dim - n) as nat) > 0,
            last == (index as int) / pow(side as int, (dim - n) as nat),
            forall|j: int|
                n <= j < dim ==> result.coords()[j] == digits(
                    index as int,
                    side as int,
                    dim as nat,
                )[j],
        decreases n,
    {
        n -= 1;
        let digit = last % side;
        proof {
            lemma_digits_index(index as int, side as int, dim as nat, n as int);
            lemma_div_twice(index as int, pow(side as int, (dim - 1 - n) as nat), side as int);
            crate::radix::lemma_pow_step(side as int, (dim - 1 - n) as nat);
        }
        result.set(n, digit as i128);
        last = last / side;
        proof {
            result.lemma_dim();
        }
    }
    proof {
        let p = pow(side as int, dim as nat);
        lemma_fundamental_div_mod(index as int, p);
        lemma_mod_bound(index as int, p);
        lemma_digits_len(index as int, side as int, dim as nat);
        assert((last == 0) <==> index < p) by (nonlinear_arith)
            requires
                index == p * last + (index as int) % p,
                0 <= (index as int) % p < p,
                last >= 0,
                index >= 0,
        ;
        if last == 0 {
            assert(result.coords() =~= digits(index as int, side as int, dim as nat));
        }
    }
    if last != 0 {
        None
    } else {
        Some(result)
    }
}

/// Two to the power `level`.
pub fn two_pow(level: usize) -> (r: i128)
    requires
        level <= MAX_SHIFT,
    ensures
        r == pow2(level as nat),
        r > 0,
{
    let mut r: i128 = 1;
    let mut i: usize = 0;
    proof {
        lemma2_to64();
    }
    while i < level
        invariant
            i <= level,
            level <= MAX_SHIFT,
            r == pow2(i as nat),
            r > 0,
        decreases level - i,
    {
        proof {
            lemma_pow2_unfold((i + 1) as nat);
            lemma_pow2_bound126();
            if i + 1 < 126 {
                lemma_pow2_strictly_increases((i + 1) as nat, 126);
            }
        }
        r = r * 2;
        i += 1;
    }
    r
}

pub proof fn lemma_pow2_bound126()
    ensures
        pow2(126) == 0x4000_0000_0000_0000_0000_0000_0000_0000,
        pow2(127) == 0x8000_0000_0000_0000_0000_0000_0000_0000,
{
    lemma2_to64();
    lemma2_to64_rest();
    lemma_pow2_adds(63, 63);
    lemma_pow2_adds(64, 63);
}

/// The top-level cell that holds the cell at `index` of level `level`:
/// every coordinate divided by `2^level` and rounded down.
pub fn get_parent<V: VecLike>(index: V, level: usize) -> (r: V)
    ensures
        r.coords() == parent_spec(index.coords(), level as nat),
{
    let dim = V::dim();
    let mut result = index;
    let mut n: usize = 0;
    proof {
        index.lemma_dim();
        lemma_pow2_pos(level as nat);
    }
    let split: i128 = if level <= MAX_SHIFT {
        two_pow(level)
    } else {
        0
    };
    while n < dim
        invariant
            n <= dim,
            dim == V::dim_spec(),
            index.coords().len() == dim,
            result.coords().len() == dim,
            level <= MAX_SHIFT ==> split == pow2(level as nat),
            pow2(level as nat) > 0,
            forall|j: int| 0 <= j < n ==> result.coords()[j] == index.coords()[j] / (pow2(level as nat) as int),
            forall|j: int| n <= j < dim ==> result.coords()[j] == index.coords()[j],
        decreases dim - n,
    {
        let c = index.get(n);
        let q: i128 = if level <= MAX_SHIFT {
            match c.checked_div_euclid(split) {
                Some(q) => q,
                None => {
                    proof {
                        let p = pow2(level as nat) as int;
                        let x = c as int;
                        lemma_fundamental_div_mod(x, p);
                        lemma_mod_bound(x, p);
                        assert(i128::MIN <= x / p <= i128::MAX) by (nonlinear_arith)
                            requires
                                x == p * (x / p) + x % p,
                                0 <= x % p < p,
                                p >= 1,
                                i128::MIN <= x <= i128::MAX,
                        ;
                    }
                    0
                },
            }
        } else {
            proof {
                let p = pow2(level as nat) as int;
                lemma_pow2_bound126();
                if level > 127 {
                    lemma_pow2_strictly_increases(127, level as nat);
                }
                if c >= 0 {
                    lemma_fundamental_div_mod_converse(c as int, p, 0, c as int);
                } else {
                    lemma_fundamental_div_mod_converse(c as int, p, -1, c + p);
                }
            }
            if c >= 0 {
                0
            } else {
                -1
            }
        };
        result.set(n, q);
        proof {
            result.lemma_dim();
        }
        n += 1;
    }
    proof {
        assert(result.coords() =~= parent_spec(index.coords(), level as nat));
    }
    result
}

/// A flat index that `encode_spec` gives lies within the grid.
pub proof fn lemma_encode_bound(c: Seq<int>, side: int, periodic: bool)
    requires
        periodic ==> side > 0,
    ensures
        match encode_spec(c, side, periodic) {
            Some(i) => 0 <= i < pow(side, c.len()),
            None => true,
        },
{
    if encode_spec(c, side, periodic).is_some() {
        let w = wrapped(c, side, periodic);
        assert forall|i: int| 0 <= i < w.len() implies 0 <= #[trigger] w[i] < side by {
            if periodic {
                lemma_mod_bound(c[i], side);
            } else {
                assert(0 <= c[i] < side);
            }
        }
        lemma_rank_bound(w, side);
    }
}

/// Decoding what a bounded grid encodes gives the coordinates back.
pub proof fn lemma_decode_encode(c: Seq<int>, side: int)
    requires
        all_below(c, side),
    ensures
        encode_spec(c, side, false).is_some(),
        decode_spec(encode_spec(c, side, false).unwrap(), side, c.len()) == Some(c),
{
    assert(wrapped(c, side, false) =~= c);
    lemma_rank_bound(c, side);
    lemma_digits_rank(c, side);
}

/// A point that decodes from what a point on a bounded grid encodes to is
/// that point.
pub proof fn lemma_round_trip<V: VecLike>(c: V, d: V, side: int)
    requires
        all_below(c.coords(), side),
        decode_spec(encode_spec(c.coords(), side, false).unwrap(), side, V::dim_spec()) == Some(
            d.coords(),
        ),
    ensures
        d == c,
{
    c.lemma_dim();
    lemma_decode_encode(c.coords(), side);
    V::lemma_ext(d, c);
}

/// Encoding the coordinates that a flat index decodes to gives the index
/// back, on a bounded grid and on a periodic one.
pub proof fn lemma_encode_decode(index: int, side: int, dim: nat, periodic: bool)
    requires
        side >= 0,
        0 <= index < pow(side, dim),
    ensures
        decode_spec(index, side, dim).is_some(),
        encode_spec(decode_spec(index, side, dim).unwrap(), side, periodic) == Some(index),
{
    if side == 0 {
        if dim == 0 {
            lemma_pow0(side);
            assert(digits(index, side, dim) =~= Seq::<int>::empty());
            assert(wrapped(digits(index, side, dim), side, periodic) =~= Seq::<int>::empty());
        } else {
            lemma0_pow(dim);
        }
    } else {
        let d = digits(index, side, dim);
        crate::radix::lemma_digits_below(index, side, dim);
        lemma_digits_len(index, side, dim);
        lemma_rank_digits(index, side, dim);
        assert forall|i: int| 0 <= i < d.len() implies d[i] % side == d[i] by {
            vstd::arithmetic::div_mod::lemma_small_mod(d[i] as nat, side as nat);
        }
        assert(wrapped(d, side, periodic) =~= d);
    }
}

/// A bounded grid rejects exactly the coordinates with a component below
/// zero or not below `side`; a periodic grid rejects nothing.
pub proof fn lemma_encode_rejects(c: Seq<int>, side: int)
    ensures
        encode_spec(c, side, false).is_none() <==> exists|i: int|
            0 <= i < c.len() && (c[i] < 0 || c[i] >= side),
        encode_spec(c, side, true).is_some(),
{
    if encode_spec(c, side, false).is_none() {
        let i = choose|i: int| 0 <= i < c.len() && !(0 <= #[trigger] c[i] < side);
        assert(0 <= i < c.len() && (c[i] < 0 || c[i] >= side));
    }
}

/// On a periodic grid a cell and the cell one whole turn further along an
/// axis are the same cell.
pub proof fn lemma_encode_turn(c: Seq<int>, side: int, axis: int, turns: int)
    requires
        side > 0,
        0 <= axis < c.len(),
    ensures
        encode_spec(c.update(axis, c[axis] + turns * side), side, true) == encode_spec(
            c,
            side,
            true,
        ),
{
    let moved = c.update(axis, c[axis] + turns * side);
    vstd::arithmetic::div_mod::lemma_mod_multiples_vanish(turns, c[axis], side);
    assert(side * turns + c[axis] == c[axis] + turns * side) by (nonlinear_arith);
    assert(wrapped(moved, side, true) =~= wrapped(c, side, true));
}

/// Coarsening twice is coarsening once by the sum of the levels.
pub proof fn lemma_parent_twice(c: Seq<int>, k1: nat, k2: nat)
    ensures
        parent_spec(parent_spec(c, k1), k2) == parent_spec(c, k1 + k2),
{
    lemma_pow2_pos(k1);
    lemma_pow2_pos(k2);
    lemma_pow2_adds(k1, k2);
    assert forall|i: int| 0 <= i < c.len() implies (c[i] / (pow2(k1) as int)) / (pow2(k2) as int)
        == c[i] / (pow2(k1 + k2) as int) by {
        lemma_div_twice(c[i], pow2(k1) as int, pow2(k2) as int);
    }
    assert(parent_spec(parent_spec(c, k1), k2) =~= parent_spec(c, k1 + k2));
}

} // verus!
