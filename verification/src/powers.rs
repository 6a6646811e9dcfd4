//! Powers of two.
use vstd::prelude::*;

verus! {

/// Whether `n` is a power of two.
pub open spec fn is_power_of_two(n: int) -> bool
    decreases n,
{
    if n <= 0 {
        false
    } else if n == 1 {
        true
    } else {
        n % 2 == 0 && is_power_of_two(n / 2)
    }
}

/// Whether `p` is the least power of two that is not below `n`.
pub open spec fn least_power_of_two(p: int, n: int) -> bool {
    is_power_of_two(p) && n <= p && (p == 1 || p < 2 * n)
}

/// A power of two is 1, 2, 4 or a multiple of 8.
pub proof fn lemma_power_of_two_cases(align: int)
    requires
        is_power_of_two(align),
    ensures
        align == 1 || align == 2 || align == 4 || (align >= 8 && align % 8 == 0),
{
    reveal_with_fuel(is_power_of_two, 4);
}

/// Computes the least power of two that is not below `n`. It gives up
/// only where `n` is above the largest power of two in range.
pub fn next_power_of_two(n: usize) -> (power: Option<usize>)
    ensures
        power matches Some(p) ==> least_power_of_two(p as int, n as int),
        power is None ==> n > usize::MAX / 2 + 1,
{
    let mut p: usize = 1;
    while p < n
        invariant
            is_power_of_two(p as int),
            p == 1 || p < 2 * n,
        decreases usize::MAX - p,
    {
        if p > usize::MAX / 2 {
            return None;
        }
        p = p * 2;
    }
    Some(p)
}

} // verus!
