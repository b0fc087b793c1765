//! Every vector whose components are drawn, with repetition, from a short
//! list of values: the neighbours of a cell, its children, the images of a
//! point under whole turns.

use vstd::prelude::*;
use vstd::arithmetic::power::{pow, lemma_pow0, lemma0_pow, lemma_pow_positive};
use vstd::arithmetic::div_mod::{lemma_fundamental_div_mod, lemma_mod_bound};
use core::marker::PhantomData;
use crate::point::VecLike;
use crate::radix::{
    rank, lemma_digits_index, lemma_digits_rank, lemma_rank_bound, lemma_div_twice,
    lemma_pow_step,
};

verus! {

/// The values of a slice as mathematical integers.
pub open spec fn ints(s: Seq<i128>) -> Seq<int> {
    Seq::new(s.len(), |i: int| s[i] as int)
}

/// The `k`-th vector over `choices`: read `k` in base `choices.len()`, the
/// first axis taking the lowest digit, and replace each digit by the choice
/// it numbers.
pub open spec fn combination(choices: Seq<int>, k: int, dim: nat) -> Seq<int> {
    Seq::new(
        dim,
        |n: int| choices[(k / pow(choices.len() as int, n as nat)) % (choices.len() as int)],
    )
}

/// How many vectors of `dim` components there are over `choices`.
pub open spec fn combinations(choices: Seq<int>, dim: nat) -> int {
    pow(choices.len() as int, dim)
}

/// Every component of `t` is one of `choices`.
pub open spec fn drawn_from(t: Seq<int>, choices: Seq<int>) -> bool {
    forall|i: int| 0 <= i < t.len() ==> choices.contains(#[trigger] t[i])
}

/// Walks through the vectors over a list of choices, one per call of `next`.
pub struct CombiIter<'a, V: VecLike> {
    cur: usize,
    choices: &'a [i128],
    _marker: PhantomData<V>,
}

impl<'a, V: VecLike> CombiIter<'a, V> {
    /// The number of vectors handed out so far.
    pub closed spec fn position(&self) -> int {
        self.cur as int
    }

    /// The choices that the vectors are made of.
    pub closed spec fn choices(&self) -> Seq<int> {
        ints(self.choices@)
    }

    /// The walk has not gone past its end, and the end can be counted to.
    pub closed spec fn wf(&self) -> bool {
        &&& combinations(self.choices(), V::dim_spec()) <= usize::MAX
        &&& self.cur <= combinations(self.choices(), V::dim_spec())
    }

    /// The next vector, or nothing once all have been handed out.
    pub fn next(&mut self) -> (r: Option<V>)
        requires
            old(self).wf(),
        ensures
            final(self).wf(),
            final(self).choices() == old(self).choices(),
            match r {
                Some(v) => {
                    &&& old(self).position() < combinations(old(self).choices(), V::dim_spec())
                    &&& v.coords() == combination(
                        old(self).choices(),
                        old(self).position(),
                        V::dim_spec(),
                    )
                    &&& final(self).position() == old(self).position() + 1
                },
                None => {
                    &&& old(self).position() == combinations(old(self).choices(), V::dim_spec())
                    &&& final(self).position() == old(self).position()
                },
            },
    {
        let dim = V::dim();
        let len = self.choices.len();
        if dim > 0 && len == 0 {
            proof {
                lemma0_pow(dim as nat);
            }
            return None;
        }
        let mut result = V::zero();
        let mut div = self.cur;
        let mut n: usize = 0;
        proof {
            result.lemma_dim();
            lemma_pow0(len as int);
        }
        while n < dim
            invariant
                n <= dim,
                dim == V::dim_spec(),
                len == self.choices@.len(),
                dim > 0 ==> len > 0,
                result.coords().len() == dim,
                pow(len as int, n as nat) > 0,
                div == (self.cur as int) / pow(len as int, n as nat),
                forall|j: int|
                    0 <= j < n ==> result.coords()[j] == combination(
                        ints(self.choices@),
                        self.cur as int,
                        dim as nat,
                    )[j],
            decreases dim - n,
        {
            let rem = div % len;
            proof {
                lemma_div_twice(self.cur as int, pow(len as int, n as nat), len as int);
                lemma_pow_step(len as int, n as nat);
                lemma_mod_bound(div as int, len as int);
            }
            result.set(n, self.choices[rem]);
            div = div / len;
            proof {
                result.lemma_dim();
            }
            n += 1;
        }
        proof {
            let p = pow(len as int, dim as nat);
            let cur = self.cur as int;
            lemma_fundamental_div_mod(cur, p);
            lemma_mod_bound(cur, p);
            assert((div == 0) <==> cur < p) by (nonlinear_arith)
                requires
                    cur == p * div + cur % p,
                    0 <= cur % p < p,
                    div >= 0,
                    cur >= 0,
            ;
            if div == 0 {
                assert(result.coords() =~= combination(ints(self.choices@), cur, dim as nat));
            }
        }
        if div != 0 {
            None
        } else {
            self.cur += 1;
            Some(result)
        }
    }
}

/// Starts a walk through all vectors over `choices`.
pub fn each_combination<'a, V: VecLike>(choices: &'a [i128]) -> (it: CombiIter<'a, V>)
    requires
        combinations(ints(choices@), V::dim_spec()) <= usize::MAX,
    ensures
        it.wf(),
        it.position() == 0,
        it.choices() == ints(choices@),
{
    proof {
        if choices@.len() > 0 {
            lemma_pow_positive(choices@.len() as int, V::dim_spec());
        } else if V::dim_spec() == 0 {
            lemma_pow0(0);
        } else {
            lemma0_pow(V::dim_spec());
        }
    }
    CombiIter { cur: 0, choices, _marker: PhantomData }
}

/// Every component of a vector over `choices` is one of the choices.
pub proof fn lemma_combination_drawn(choices: Seq<int>, k: int, dim: nat)
    requires
        choices.len() > 0,
    ensures
        combination(choices, k, dim).len() == dim,
        drawn_from(combination(choices, k, dim), choices),
{
    let len = choices.len() as int;
    let c = combination(choices, k, dim);
    assert forall|i: int| 0 <= i < c.len() implies choices.contains(#[trigger] c[i]) by {
        let d = (k / pow(len, i as nat)) % len;
        lemma_mod_bound(k / pow(len, i as nat), len);
        assert(choices[d] == c[i]);
    }
}

/// The walk leaves nothing out: every vector whose components are all drawn
/// from `choices` is the `k`-th vector for some `k` below the count.
pub proof fn lemma_combination_covers(choices: Seq<int>, t: Seq<int>) -> (k: int)
    requires
        drawn_from(t, choices),
    ensures
        0 <= k < combinations(choices, t.len()),
        combination(choices, k, t.len()) == t,
{
    let len = choices.len() as int;
    let dim = t.len();
    if dim == 0 {
        lemma_pow0(len);
        assert(combination(choices, 0, dim) =~= t);
        0
    } else {
        assert(choices.contains(t[0]));
        // The digit that numbers each component, highest axis first.
        let places = Seq::new(
            dim,
            |j: int| choose|d: int| 0 <= d < len && choices[d] == t[dim - 1 - j],
        );
        assert forall|j: int| 0 <= j < dim implies 0 <= #[trigger] places[j] < len
            && choices[places[j]] == t[dim - 1 - j] by {
            assert(choices.contains(t[dim - 1 - j]));
        }
        let k = rank(places, len);
        lemma_rank_bound(places, len);
        lemma_digits_rank(places, len);
        assert forall|n: int| 0 <= n < dim implies combination(choices, k, dim)[n] == t[n] by {
            lemma_digits_index(k, len, dim, dim - 1 - n);
            assert(places[dim - 1 - n] == (k / pow(len, n as nat)) % len);
        }
        assert(combination(choices, k, dim) =~= t);
        k
    }
}

} // verus!
