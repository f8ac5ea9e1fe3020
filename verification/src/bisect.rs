//! Bisection over whole numbers.

use vstd::prelude::*;

verus! {

/// The first number from `low` to `high` that is not below a target, `high` if
/// all before it are. `below` says whether a number is below the target.
pub fn first_not_below<F: Fn(u64) -> bool>(low: u64, high: u64, below: F) -> (found: u64)
    requires
        low <= high,
        forall|n: u64| low <= n < high ==> #[trigger] call_requires(below, (n,)),
    ensures
        low <= found <= high,
        found > low ==> call_ensures(below, ((found - 1) as u64,), true),
        found < high ==> call_ensures(below, (found,), false),
{
    let mut left: u64 = low;
    let mut right: u64 = high;
    while left < right
        invariant
            low <= left <= right <= high,
            forall|n: u64| low <= n < high ==> #[trigger] call_requires(below, (n,)),
            left > low ==> call_ensures(below, ((left - 1) as u64,), true),
            right < high ==> call_ensures(below, (right,), false),
        decreases right - left,
    {
        let middle: u64 = left + (right - left) / 2;
        if below(middle) {
            left = middle + 1;
        } else {
            right = middle;
        }
    }
    left
}

/// Where being below a target is monotone, bisection finds the number of numbers
/// from `low` on that are below it.
pub proof fn bisection_counts_the_numbers_below(
    low: u64,
    high: u64,
    below: spec_fn(int) -> bool,
    found: u64,
    n: int,
)
    requires
        low <= found <= high,
        found > low ==> below(found - 1),
        found < high ==> !below(found as int),
        forall|a: int, b: int|
            #![trigger below(a), below(b)]
            low <= a <= b < high && below(b) ==> below(a),
        low <= n < high,
    ensures
        below(n) <==> n < found,
{
    if n < found {
        assert(below(found - 1));
        assert(below(n) || !below(n));
    } else {
        assert(below(found as int) || !below(found as int));
        assert(below(n) || !below(n));
    }
}

} // verus!
