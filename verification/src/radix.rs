//! Positional notation: the number a sequence of digits stands for, the
//! digits of a number, and the facts that tie the two together.

use vstd::prelude::*;
use vstd::arithmetic::power::{pow, lemma_pow0, lemma_pow_positive};
use vstd::arithmetic::div_mod::{
    lemma_fundamental_div_mod, lemma_fundamental_div_mod_converse, lemma_div_pos_is_pos,
    lemma_mod_bound,
};

verus! {

/// Every entry of `v` is a digit in base `base`.
pub open spec fn all_below(v: Seq<int>, base: int) -> bool {
    forall|i: int| 0 <= i < v.len() ==> 0 <= #[trigger] v[i] < base
}

/// The number written by `digits` in base `base`, first digit most significant.
pub open spec fn rank(digits: Seq<int>, base: int) -> int
    decreases digits.len(),
{
    if digits.len() == 0 {
        0
    } else {
        rank(digits.drop_last(), base) * base + digits.last()
    }
}

/// The last `len` digits of `n` in base `base`, first digit most significant.
pub open spec fn digits(n: int, base: int, len: nat) -> Seq<int>
    decreases len,
{
    if len == 0 {
        Seq::empty()
    } else {
        digits(n / base, base, (len - 1) as nat).push(n % base)
    }
}

pub proof fn lemma_pow_step(b: int, e: nat)
    ensures
        pow(b, e + 1) == pow(b, e) * b,
{
    reveal(pow);
    assert(pow(b, e + 1) == b * pow(b, e));
    assert(b * pow(b, e) == pow(b, e) * b) by (nonlinear_arith);
}

/// A number written with `v.len()` digits is below `base` to that power.
pub proof fn lemma_rank_bound(v: Seq<int>, base: int)
    requires
        all_below(v, base),
    ensures
        0 <= rank(v, base) < pow(base, v.len()),
    decreases v.len(),
{
    if v.len() == 0 {
        lemma_pow0(base);
    } else {
        let init = v.drop_last();
        assert(0 <= v[v.len() - 1] < base);
        assert forall|i: int| 0 <= i < init.len() implies 0 <= #[trigger] init[i] < base by {
            assert(init[i] == v[i]);
        }
        lemma_rank_bound(init, base);
        lemma_pow_step(base, init.len());
        let r = rank(init, base);
        let p = pow(base, init.len());
        let d = v.last();
        assert(r * base + d < p * base && 0 <= r * base + d) by (nonlinear_arith)
            requires
                0 <= r < p,
                0 <= d < base,
        ;
    }
}

pub proof fn lemma_digits_len(n: int, base: int, len: nat)
    ensures
        digits(n, base, len).len() == len,
    decreases len,
{
    if len > 0 {
        lemma_digits_len(n / base, base, (len - 1) as nat);
    }
}

pub proof fn lemma_digits_below(n: int, base: int, len: nat)
    requires
        base > 0,
    ensures
        all_below(digits(n, base, len), base),
    decreases len,
{
    if len > 0 {
        lemma_digits_below(n / base, base, (len - 1) as nat);
        lemma_digits_len(n / base, base, (len - 1) as nat);
        lemma_mod_bound(n, base);
    }
}

/// Writing a number below `base^len` with `len` digits loses nothing.
pub proof fn lemma_rank_digits(n: int, base: int, len: nat)
    requires
        base > 0,
        0 <= n < pow(base, len),
    ensures
        rank(digits(n, base, len), base) == n,
    decreases len,
{
    if len == 0 {
        lemma_pow0(base);
    } else {
        let m = (len - 1) as nat;
        lemma_pow_step(base, m);
        lemma_fundamental_div_mod(n, base);
        lemma_mod_bound(n, base);
        lemma_div_pos_is_pos(n, base);
        let q = n / base;
        let p = pow(base, m);
        assert(q < p) by (nonlinear_arith)
            requires
                n == base * q + n % base,
                0 <= n % base,
                n < p * base,
                base > 0,
        ;
        lemma_rank_digits(q, base, m);
        let ds = digits(n, base, len);
        assert(ds.drop_last() =~= digits(q, base, m));
        assert(ds.last() == n % base);
        assert(q * base == base * q) by (nonlinear_arith);
    }
}

/// The digits of the number that `v` writes are `v` again.
pub proof fn lemma_digits_rank(v: Seq<int>, base: int)
    requires
        all_below(v, base),
    ensures
        digits(rank(v, base), base, v.len()) == v,
    decreases v.len(),
{
    if v.len() == 0 {
        assert(digits(rank(v, base), base, 0) =~= v);
    } else {
        let init = v.drop_last();
        let d = v.last();
        assert(0 <= v[v.len() - 1] < base);
        assert forall|i: int| 0 <= i < init.len() implies 0 <= #[trigger] init[i] < base by {
            assert(init[i] == v[i]);
        }
        lemma_digits_rank(init, base);
        let r = rank(init, base);
        lemma_fundamental_div_mod_converse(r * base + d, base, r, d);
        assert(digits(rank(v, base), base, v.len()) =~= init.push(d));
        assert(init.push(d) =~= v);
    }
}

/// Dividing twice by positive numbers is dividing once by their product,
/// for negative numbers too.
pub proof fn lemma_div_twice(x: int, a: int, b: int)
    requires
        a > 0,
        b > 0,
    ensures
        a * b > 0,
        (x / a) / b == x / (a * b),
{
    let q1 = x / a;
    let r1 = x % a;
    let q2 = q1 / b;
    let r2 = q1 % b;
    lemma_fundamental_div_mod(x, a);
    lemma_fundamental_div_mod(q1, b);
    lemma_mod_bound(x, a);
    lemma_mod_bound(q1, b);
    assert(a * b > 0) by (nonlinear_arith)
        requires
            a > 0,
            b > 0,
    ;
    assert(x == q2 * (a * b) + (a * r2 + r1) && 0 <= a * r2 + r1 < a * b) by (nonlinear_arith)
        requires
            x == a * q1 + r1,
            q1 == b * q2 + r2,
            0 <= r1 < a,
            0 <= r2 < b,
    ;
    lemma_fundamental_div_mod_converse(x, a * b, q2, a * r2 + r1);
}

/// The digit at place `j` is what is left of `n` after dropping the places
/// behind it.
pub proof fn lemma_digits_index(n: int, base: int, len: nat, j: int)
    requires
        base > 0,
        0 <= j < len,
    ensures
        pow(base, (len - 1 - j) as nat) > 0,
        digits(n, base, len).len() == len,
        digits(n, base, len)[j] == (n / pow(base, (len - 1 - j) as nat)) % base,
    decreases len,
{
    lemma_digits_len(n, base, len);
    lemma_digits_len(n / base, base, (len - 1) as nat);
    lemma_pow_positive(base, (len - 1 - j) as nat);
    if j == len - 1 {
        lemma_pow0(base);
    } else {
        let e = (len - 2 - j) as nat;
        lemma_digits_index(n / base, base, (len - 1) as nat, j);
        lemma_pow_step(base, e);
        lemma_div_twice(n, base, pow(base, e));
        assert(base * pow(base, e) == pow(base, e) * base) by (nonlinear_arith);
    }
}

} // verus!
