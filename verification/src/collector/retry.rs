//! When to attempt delivery again after it failed.

use vstd::arithmetic::power2::{lemma2_to64, lemma_pow2_pos, lemma_pow2_strictly_increases, lemma_pow2_unfold, pow2};
use vstd::prelude::*;

use crate::time::{Duration, MAX_NANOS};

verus! {

/// The wait after `failures` failures in a row, in nanoseconds: nothing before the first, then
/// `base` doubled with each further one, never more than `cap`.
pub open spec fn wait_after(failures: u32, base: nat, cap: nat) -> nat {
    if failures == 0 {
        0
    } else {
        let doubled = base * pow2((failures - 1) as nat);
        if doubled <= cap {
            doubled
        } else {
            cap
        }
    }
}

proof fn lemma_doubling_grows(base: nat, i: nat, j: nat)
    requires
        i <= j,
    ensures
        base * pow2(i) <= base * pow2(j),
{
    if i < j {
        lemma_pow2_strictly_increases(i, j);
    }
    assert(base * pow2(i) <= base * pow2(j)) by (nonlinear_arith)
        requires
            pow2(i) <= pow2(j),
    ;
}

/// `base`, doubled once per consecutive failure, capped at `cap`.
pub fn backoff(failures: u32, base: Duration, cap: Duration) -> (r: Duration)
    ensures
        r@ == wait_after(failures, base@, cap@),
{
    if failures == 0 {
        return Duration::zero();
    }
    let limit: u128 = cap.as_nanos();
    let mut wait: u128 = base.as_nanos();
    let mut doubled: u32 = 0;
    proof {
        lemma2_to64();
        assert(base@ * pow2(0) == base@);
    }
    // Doubling ends at the cap, so it takes no more steps than a span has bits, however often
    // delivery failed.
    while doubled < failures - 1 && 0 < wait && wait <= limit
        invariant
            0 < failures,
            doubled <= failures - 1,
            wait == base@ * pow2(doubled as nat),
            limit == cap@,
            limit <= MAX_NANOS,
            wait <= 2 * MAX_NANOS,
        decreases failures - doubled,
    {
        proof {
            lemma_pow2_unfold((doubled + 1) as nat);
            assert(base@ * (2 * pow2(doubled as nat)) == 2 * (base@ * pow2(doubled as nat))) by (nonlinear_arith);
        }
        wait = wait * 2;
        doubled += 1;
    }
    proof {
        let last = (failures - 1) as nat;
        lemma_doubling_grows(base@, doubled as nat, last);
        if wait == 0 {
            lemma_pow2_pos(doubled as nat);
            assert(base@ == 0) by (nonlinear_arith)
                requires
                    base@ * pow2(doubled as nat) == 0,
                    pow2(doubled as nat) > 0,
            ;
            assert(base@ * pow2(last) == 0) by (nonlinear_arith)
                requires
                    base@ == 0,
            ;
        }
    }
    if wait <= limit {
        Duration::from_total(wait)
    } else {
        cap
    }
}

/// The wait never exceeds the cap, and never shrinks while delivery keeps failing.
pub proof fn law_backoff_grows_up_to_its_cap(a: u32, b: u32, base: nat, cap: nat)
    requires
        a <= b,
    ensures
        wait_after(a, base, cap) <= cap,
        wait_after(a, base, cap) <= wait_after(b, base, cap),
{
    if a > 0 {
        lemma_doubling_grows(base, (a - 1) as nat, (b - 1) as nat);
    }
}

/// Until it reaches the cap, the wait doubles with each failure.
pub proof fn law_each_failure_doubles_the_wait(failures: u32, base: nat, cap: nat)
    requires
        0 < failures < u32::MAX,
    ensures
        wait_after(1, base, cap) == if base <= cap { base } else { cap },
        wait_after((failures + 1) as u32, base, cap) == if 2 * wait_after(failures, base, cap) <= cap {
            2 * wait_after(failures, base, cap)
        } else {
            cap
        },
{
    lemma2_to64();
    assert(base * pow2(0) == base);
    lemma_pow2_unfold(failures as nat);
    let before = pow2((failures - 1) as nat);
    assert(base * (2 * before) == 2 * (base * before)) by (nonlinear_arith);
}

/// A cap of zero switches the backoff off.
pub proof fn law_zero_cap_disables_the_backoff(failures: u32, base: nat)
    ensures
        wait_after(failures, base, 0) == 0,
{
}

} // verus!
