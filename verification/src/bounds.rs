//! How many axes the search around a cell can be carried out for.

use vstd::prelude::*;
use vstd::arithmetic::power::{pow, lemma_pow_adds, lemma_pow_increases, lemma_pow_positive};
use crate::grid::CELL;
use crate::grid::sq_diameter;
use crate::radix::lemma_pow_step;

verus! {

/// The largest number of axes for which the cells around a cell can be
/// counted.
pub const MAX_DIM: usize = 27;

/// A power grows with its base.
pub proof fn lemma_pow_base_increases(a: int, b: int, e: nat)
    requires
        0 <= a <= b,
    ensures
        0 <= pow(a, e) <= pow(b, e),
    decreases e,
{
    if e == 0 {
        vstd::arithmetic::power::lemma_pow0(a);
        vstd::arithmetic::power::lemma_pow0(b);
    } else {
        lemma_pow_base_increases(a, b, (e - 1) as nat);
        lemma_pow_step(a, (e - 1) as nat);
        lemma_pow_step(b, (e - 1) as nat);
        let x = pow(a, (e - 1) as nat);
        let y = pow(b, (e - 1) as nat);
        assert(0 <= x * a <= y * b) by (nonlinear_arith)
            requires
                0 <= x <= y,
                0 <= a <= b,
        ;
    }
}

/// Where the ring of cells around a cell can be counted, so can the images
/// of a point and the corners of a cell, and the square of the diameter
/// can be held.
pub proof fn lemma_feasible(dim: nat)
    requires
        pow(5, dim) <= usize::MAX,
    ensures
        dim <= MAX_DIM,
        pow(3, dim) <= usize::MAX,
        pow(2, dim) <= usize::MAX,
        0 < pow(2, dim) <= pow(3, dim) <= pow(5, dim),
        sq_diameter(dim) <= u128::MAX,
{
    if dim >= 28 {
        lemma_pow_increases(5, 28, dim);
        lemma_pow_28();
    }
    lemma_pow_base_increases(3, 5, dim);
    lemma_pow_base_increases(2, 3, dim);
    lemma_pow_positive(2, dim);
    assert(dim * (CELL as int) * (CELL as int) <= u128::MAX) by (nonlinear_arith)
        requires
            dim <= 27,
            CELL == 9007199254740992,
    ;
}

proof fn lemma_pow_28()
    ensures
        pow(5, 28) > u64::MAX,
{
    reveal_with_fuel(pow, 8);
    assert(pow(5, 7) == 78125);
    lemma_pow_adds(5, 7, 7);
    lemma_pow_adds(5, 14, 14);
    assert(pow(5, 14) == 6103515625) by (nonlinear_arith)
        requires
            pow(5, 14) == pow(5, 7) * pow(5, 7),
            pow(5, 7) == 78125,
    ;
    assert(pow(5, 28) > u64::MAX) by (nonlinear_arith)
        requires
            pow(5, 28) == pow(5, 14) * pow(5, 14),
            pow(5, 14) == 6103515625,
    ;
}

} // verus!
