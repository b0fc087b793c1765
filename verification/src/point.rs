//! Points of the lattice and the capabilities the sampler needs of them.

use vstd::prelude::*;

verus! {

/// What the sampler needs of a point type: a fixed number of integer
/// components that can be read and written one at a time, a zero, and
/// values that are copied freely and are equal where their components are.
pub trait VecLike: Copy {
    /// The components of the point, first axis first.
    spec fn coords(&self) -> Seq<int>;

    /// The number of axes.
    spec fn dim_spec() -> nat;

    /// Every point has exactly `dim_spec()` components.
    proof fn lemma_dim(&self)
        ensures
            self.coords().len() == Self::dim_spec(),
    ;

    /// Two points with the same components are the same point.
    proof fn lemma_ext(a: Self, b: Self)
        requires
            a.coords() == b.coords(),
        ensures
            a == b,
    ;

    /// The number of axes.
    fn dim() -> (d: usize)
        ensures
            d == Self::dim_spec(),
    ;

    /// The point whose components are all zero.
    fn zero() -> (z: Self)
        ensures
            forall|i: int| 0 <= i < Self::dim_spec() ==> z.coords()[i] == 0,
    ;

    /// The component along axis `i`.
    fn get(&self, i: usize) -> (c: i128)
        requires
            i < Self::dim_spec(),
        ensures
            c == self.coords()[i as int],
    ;

    /// Sets the component along axis `i` to `c` and leaves the others.
    fn set(&mut self, i: usize, c: i128)
        requires
            i < Self::dim_spec(),
        ensures
            final(self).coords() == old(self).coords().update(i as int, c as int),
    ;
}

/// A point with `D` components.
#[derive(Clone, Copy, Debug, PartialEq, Eq)]
pub struct Point<const D: usize> {
    pub c: [i128; D],
}

impl<const D: usize> Point<D> {
    /// The point with the components `c`.
    pub fn new(c: [i128; D]) -> (p: Self)
        ensures
            p.c == c,
    {
        Point { c }
    }
}

impl<const D: usize> VecLike for Point<D> {
    open spec fn coords(&self) -> Seq<int> {
        Seq::new(D as nat, |i: int| self.c@[i] as int)
    }

    open spec fn dim_spec() -> nat {
        D as nat
    }

    proof fn lemma_dim(&self) {
    }

    proof fn lemma_ext(a: Self, b: Self) {
        assert forall|i: int| 0 <= i < D implies a.c@[i] == b.c@[i] by {
            assert(a.coords()[i] == a.c@[i] as int);
            assert(b.coords()[i] == b.c@[i] as int);
        }
        assert(a.c@ =~= b.c@);
        assert(a.c =~= b.c);
    }

    fn dim() -> (d: usize) {
        D
    }

    fn zero() -> (z: Self) {
        Point { c: [0i128; D] }
    }

    fn get(&self, i: usize) -> (c: i128) {
        self.c[i]
    }

    fn set(&mut self, i: usize, c: i128) {
        self.c[i] = c;
        assert(self.coords() =~= old(self).coords().update(i as int, c as int));
    }
}

/// No component of `c` is further than `bound` from zero.
pub open spec fn within(c: Seq<int>, bound: int) -> bool {
    forall|i: int| 0 <= i < c.len() ==> -bound <= #[trigger] c[i] <= bound
}

/// The sum of two vectors, component by component.
pub open spec fn plus_spec(a: Seq<int>, b: Seq<int>) -> Seq<int> {
    Seq::new(a.len(), |i: int| a[i] + b[i])
}

/// The sum of two vectors.
pub fn plus<V: VecLike>(a: V, b: V) -> (r: V)
    requires
        forall|i: int|
            0 <= i < V::dim_spec() ==> i128::MIN <= #[trigger] a.coords()[i] + b.coords()[i]
                <= i128::MAX,
    ensures
        r.coords() == plus_spec(a.coords(), b.coords()),
{
    let dim = V::dim();
    let mut result = a;
    let mut n: usize = 0;
    proof {
        a.lemma_dim();
        b.lemma_dim();
    }
    while n < dim
        invariant
            n <= dim,
            dim == V::dim_spec(),
            a.coords().len() == dim,
            b.coords().len() == dim,
            result.coords().len() == dim,
            forall|i: int|
                0 <= i < dim ==> i128::MIN <= #[trigger] a.coords()[i] + b.coords()[i]
                    <= i128::MAX,
            forall|j: int| 0 <= j < n ==> result.coords()[j] == a.coords()[j] + b.coords()[j],
            forall|j: int| n <= j < dim ==> result.coords()[j] == a.coords()[j],
        decreases dim - n,
    {
        let x = a.get(n);
        let y = b.get(n);
        assert(i128::MIN <= a.coords()[n as int] + b.coords()[n as int] <= i128::MAX);
        result.set(n, x + y);
        proof {
            result.lemma_dim();
        }
        n += 1;
    }
    proof {
        assert(result.coords() =~= plus_spec(a.coords(), b.coords()));
    }
    result
}

/// A vector stretched by a whole number.
pub open spec fn scaled_spec(a: Seq<int>, factor: int) -> Seq<int> {
    Seq::new(a.len(), |i: int| a[i] * factor)
}

/// The vector `a` stretched by `factor`.
pub fn scaled<V: VecLike>(a: V, factor: i128) -> (r: V)
    requires
        forall|i: int|
            0 <= i < V::dim_spec() ==> i128::MIN <= (#[trigger] a.coords()[i]) * factor
                <= i128::MAX,
    ensures
        r.coords() == scaled_spec(a.coords(), factor as int),
{
    let dim = V::dim();
    let mut result = a;
    let mut n: usize = 0;
    proof {
        a.lemma_dim();
    }
    while n < dim
        invariant
            n <= dim,
            dim == V::dim_spec(),
            a.coords().len() == dim,
            result.coords().len() == dim,
            forall|i: int|
                0 <= i < dim ==> i128::MIN <= (#[trigger] a.coords()[i]) * factor <= i128::MAX,
            forall|j: int| 0 <= j < n ==> result.coords()[j] == a.coords()[j] * factor,
            forall|j: int| n <= j < dim ==> result.coords()[j] == a.coords()[j],
        decreases dim - n,
    {
        let x = a.get(n);
        assert(i128::MIN <= a.coords()[n as int] * factor <= i128::MAX);
        result.set(n, x * factor);
        proof {
            result.lemma_dim();
        }
        n += 1;
    }
    proof {
        assert(result.coords() =~= scaled_spec(a.coords(), factor as int));
    }
    result
}

} // verus!
