//! Replacing every element of a vector by any number of others, where the
//! order of the elements carries no meaning.

use vstd::prelude::*;
use vstd::multiset::Multiset;
use vstd::seq_lib::{to_multiset_remove, to_multiset_insert, lemma_multiset_commutative};

verus! {

/// Everything that the vectors of `parts` hold, taken together.
pub open spec fn pooled<T>(parts: Seq<Vec<T>>) -> Multiset<T>
    decreases parts.len(),
{
    if parts.len() == 0 {
        Multiset::empty()
    } else {
        parts.first()@.to_multiset().add(pooled(parts.drop_first()))
    }
}

/// `to` holds what `f` made of the elements of `from`, in some order:
/// `parts[i]` is what `f` gave for `from[i]`.
pub open spec fn gathers<T, F: Fn(T) -> Vec<T>>(f: F, from: Seq<T>, parts: Seq<Vec<T>>, to: Seq<T>) -> bool {
    &&& parts.len() == from.len()
    &&& forall|i: int| 0 <= i < from.len() ==> f.ensures((#[trigger] from[i],), parts[i])
    &&& to.to_multiset() == pooled(parts)
}

/// A flat map that works in place.
pub trait Inplace<T> {
    /// The elements, in their current order.
    spec fn items(&self) -> Seq<T>;

    /// Replaces every element by what `f` makes of it, without keeping the
    /// order of the elements.
    fn flat_map_inplace<F: Fn(T) -> Vec<T>>(&mut self, f: F)
        requires
            forall|i: int|
                0 <= i < old(self).items().len() ==> f.requires((#[trigger] old(self).items()[i],)),
        ensures
            exists|parts: Seq<Vec<T>>| gathers(f, old(self).items(), parts, final(self).items()),
    ;
}

/// Taking an element out by moving the last one into its place leaves the
/// other elements, each as often as before.
pub proof fn lemma_swap_remove<T>(s: Seq<T>, i: int)
    requires
        0 <= i < s.len(),
    ensures
        s.update(i, s.last()).drop_last().to_multiset() == s.to_multiset().remove(s[i]),
{
    let n = s.len() as int;
    let after = s.update(i, s.last()).drop_last();
    if i == n - 1 {
        assert(after =~= s.remove(i));
        to_multiset_remove(s, i);
    } else {
        let shorter = s.remove(n - 1);
        let gone = shorter.remove(i);
        assert(after =~= gone.insert(i, s.last()));
        to_multiset_remove(s, n - 1);
        to_multiset_remove(shorter, i);
        to_multiset_insert(gone, i, s.last());
        assert(shorter[i] == s[i]);
        assert(s.to_multiset().remove(s.last()).remove(s[i]).insert(s.last())
            =~= s.to_multiset().remove(s[i])) by {
            vstd::seq_lib::to_multiset_contains(s, s.last());
            vstd::seq_lib::to_multiset_contains(s, s[i]);
            vstd::seq_lib::to_multiset_contains(shorter, s[i]);
            assert(s.contains(s.last()));
            assert(s.contains(s[i]));
            assert(shorter.contains(shorter[i]));
        }
    }
}

impl<T> Inplace<T> for Vec<T> {
    open spec fn items(&self) -> Seq<T> {
        self@
    }

    fn flat_map_inplace<F: Fn(T) -> Vec<T>>(&mut self, f: F) {
        let ghost from = self@;
        let ghost mut parts: Seq<Vec<T>> = Seq::empty();
        let mut i = self.len();
        proof {
            assert(self@.take(i as int) =~= self@);
            assert forall|j: int| 0 <= j < from.len() implies f.requires((#[trigger] from[j],)) by {
                assert(f.requires((old(self).items()[j],)));
            }
        }
        while i > 0
            invariant
                i <= from.len(),
                i <= self@.len(),
                self@.take(i as int) == from.take(i as int),
                parts.len() == from.len() - i,
                forall|j: int| 0 <= j < from.len() ==> f.requires((#[trigger] from[j],)),
                forall|j: int|
                    0 <= j < parts.len() ==> f.ensures((#[trigger] from[i + j],), parts[j]),
                self@.to_multiset() == from.take(i as int).to_multiset().add(pooled(parts)),
            decreases i,
        {
            let ghost before = self@;
            i -= 1;
            proof {
                assert(before.take(i + 1)[i as int] == from.take(i + 1)[i as int]);
                lemma_swap_remove(before, i as int);
            }
            let x = self.swap_remove(i);
            let ghost middle = self@;
            let mut out = f(x);
            let ghost made = out;
            self.append(&mut out);
            proof {
                let grown = seq![made].add(parts);
                assert(grown.drop_first() =~= parts);
                assert(grown.first() == made);
                assert forall|j: int| 0 <= j < grown.len() implies f.ensures(
                    (#[trigger] from[i + j],),
                    grown[j],
                ) by {
                    if j > 0 {
                        assert(grown[j] == parts[j - 1]);
                        assert(f.ensures((from[(i + 1) + (j - 1)],), parts[j - 1]));
                    }
                }
                assert(self@.take(i as int) =~= from.take(i as int)) by {
                    assert forall|k: int| 0 <= k < i implies self@[k] == from[k] by {
                        assert(before.take(i + 1)[k] == from.take(i + 1)[k]);
                    }
                }
                lemma_multiset_commutative(middle, made@);
                let head = from.take(i as int);
                assert(from.take(i + 1) =~= head.push(from[i as int]));
                vstd::seq_lib::to_multiset_build(head, from[i as int]);
                assert(self@.to_multiset() =~= head.to_multiset().add(pooled(grown)));
                parts = grown;
            }
        }
        proof {
            assert(from.take(0) =~= Seq::<T>::empty());
            vstd::seq_lib::to_multiset_len(from.take(0));
            assert(from.take(0).to_multiset() =~= Multiset::<T>::empty()) by {
                broadcast use vstd::multiset::group_multiset_axioms;
            }
            assert(self@.to_multiset() =~= pooled(parts));
            assert forall|j: int| 0 <= j < from.len() implies f.ensures(
                (#[trigger] from[j],),
                parts[j],
            ) by {
                assert(f.ensures((from[0 + j],), parts[j]));
            }
            assert(gathers(f, old(self).items(), parts, self.items()));
        }
    }
}

/// Whatever is among the pooled elements is in one of the parts.
pub proof fn lemma_pooled_member<T>(parts: Seq<Vec<T>>, x: T) -> (at: (int, int))
    requires
        pooled(parts).count(x) > 0,
    ensures
        0 <= at.0 < parts.len(),
        0 <= at.1 < parts[at.0]@.len(),
        parts[at.0]@[at.1] == x,
    decreases parts.len(),
{
    if parts.len() == 0 {
        (0, 0)
    } else {
        let first = parts.first()@;
        vstd::seq_lib::to_multiset_contains(first, x);
        if first.contains(x) {
            let j = choose|j: int| 0 <= j < first.len() && first[j] == x;
            (0, j)
        } else {
            let (i, j) = lemma_pooled_member(parts.drop_first(), x);
            (i + 1, j)
        }
    }
}

/// Whatever is in one of the parts is among the pooled elements.
pub proof fn lemma_member_pooled<T>(parts: Seq<Vec<T>>, i: int, j: int)
    requires
        0 <= i < parts.len(),
        0 <= j < parts[i]@.len(),
    ensures
        pooled(parts).count(parts[i]@[j]) > 0,
    decreases parts.len(),
{
    let x = parts[i]@[j];
    if i == 0 {
        let first = parts.first()@;
        vstd::seq_lib::to_multiset_contains(first, x);
        assert(first.contains(x));
    } else {
        lemma_member_pooled(parts.drop_first(), i - 1, j);
    }
}

} // verus!
