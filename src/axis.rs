//! The far end of the unbroken run of cells along one axis.

use crate::digits::{digit_sum, pow10};
use crate::tiling::fitted;
use vstd::prelude::*;

verus! {

/// The digit `steps % 9 + 1` followed by `steps / 9` nines, less one: the
/// number just before the least number whose digit sum exceeds `steps`.
pub open spec fn max_number(steps: nat) -> nat {
    ((steps % 9 + 2) * pow10(steps / 9) - 2) as nat
}

/// `10^k` is at least one.
proof fn lemma_pow10_pos(k: nat)
    ensures
        pow10(k) >= 1,
    decreases k,
{
    if k > 0 {
        lemma_pow10_pos((k - 1) as nat);
    }
}

/// `10^k` is at least one and grows with `k`.
pub proof fn lemma_pow10_mono(a: nat, b: nat)
    requires
        a <= b,
    ensures
        1 <= pow10(a) <= pow10(b),
        a < b ==> 10 * pow10(a) <= pow10(b),
    decreases b,
{
    lemma_pow10_pos(a);
    if a < b {
        lemma_pow10_mono(a, (b - 1) as nat);
    }
}

/// `max_number` without the cast to `nat`.
proof fn lemma_max_number_value(steps: nat)
    ensures
        max_number(steps) == (steps % 9 + 2) * pow10(steps / 9) - 2,
{
    let p = pow10(steps / 9);
    lemma_pow10_pos(steps / 9);
    assert((steps % 9 + 2) * p >= 2) by (nonlinear_arith)
        requires
            p >= 1,
    ;
}

/// Nine more steps append one more nine before the final digit.
proof fn lemma_max_number_step(steps: nat)
    requires
        steps >= 9,
    ensures
        max_number(steps) == 10 * max_number((steps - 9) as nat) + 18,
{
    let k = steps / 9;
    let d = steps % 9;
    assert((steps - 9) as nat / 9 == k - 1 && (steps - 9) as nat % 9 == d);
    let p = pow10((k - 1) as nat);
    assert(pow10(k) == 10 * p);
    lemma_pow10_mono(0, (k - 1) as nat);
    assert((d + 2) * (10 * p) - 2 == 10 * ((d + 2) * p - 2) + 18) by (nonlinear_arith);
    assert((d + 2) * p >= 2) by (nonlinear_arith)
        requires
            p >= 1,
            d >= 0,
    ;
}

/// `max_number(steps)` has digit sum exactly `steps`, every number up to it
/// has digit sum at most `steps`, and the next number exceeds `steps`: it is
/// the largest `n` such that all of `0..=n` keep within the budget.
pub proof fn lemma_max_number(steps: nat)
    ensures
        digit_sum(max_number(steps)) == steps,
        digit_sum(max_number(steps) + 1) == steps + 1,
        forall|m: nat| m <= max_number(steps) ==> #[trigger] digit_sum(m) <= steps,
    decreases steps,
{
    let n = max_number(steps);
    if steps < 9 {
        assert(pow10(0) == 1);
        lemma_max_number_value(steps);
        assert((steps % 9 + 2) * pow10(0) == steps + 2) by (nonlinear_arith)
            requires
                pow10(0) == 1,
                steps < 9,
        ;
        assert(n == steps);
        assert forall|m: nat| m <= n implies #[trigger] digit_sum(m) <= steps by {}
    } else {
        let prev = max_number((steps - 9) as nat);
        lemma_max_number((steps - 9) as nat);
        lemma_max_number_step(steps);
        assert(n / 10 == prev + 1 && n % 10 == 8);
        assert((n + 1) / 10 == prev + 1 && (n + 1) % 10 == 9);
        assert forall|m: nat| m <= n implies #[trigger] digit_sum(m) <= steps by {
            if m >= 10 {
                assert(m / 10 <= prev + 1);
                if m / 10 <= prev {
                    assert(digit_sum(m / 10) <= steps - 9);
                } else {
                    assert(m % 10 <= 8);
                }
            }
        }
    }
}

/// `max_number(steps)`, or `None` when it exceeds 128 bits.
pub fn get_max_number(steps: u32) -> (r: Option<u128>)
    ensures
        r == fitted(max_number(steps as nat)),
{
    let full_places: u32 = steps / 9;
    let last_place_max: u128 = (steps % 9 + 1) as u128;
    let mut pow: u128 = 1;
    let mut nines: u128 = 0;
    let mut i: u32 = 0;
    proof {
        lemma_pow10_mono(0, full_places as nat);
        lemma_max_number_value(steps as nat);
    }
    while i < full_places
        invariant
            i <= full_places,
            full_places == steps / 9,
            max_number(steps as nat) == (steps % 9 + 2) * pow10(full_places as nat) - 2,
            pow as nat == pow10(i as nat),
            nines as nat + 1 == pow10(i as nat),
        decreases full_places - i,
    {
        proof {
            lemma_pow10_mono((i + 1) as nat, full_places as nat);
            lemma_pow10_mono(0, full_places as nat);
        }
        match pow.checked_mul(10) {
            None => {
                proof {
                    assert(max_number(steps as nat) >= pow10(full_places as nat)) by (nonlinear_arith)
                        requires
                            max_number(steps as nat) == (steps % 9 + 2) * pow10(full_places as nat) - 2,
                            pow10(full_places as nat) >= 10,
                    ;
                }
                return None;
            },
            Some(next) => {
                nines = nines + 9 * pow;
                pow = next;
            },
        }
        i = i + 1;
    }
    proof {
        lemma_pow10_mono(0, full_places as nat);
        lemma_max_number_value(steps as nat);
    }
    match last_place_max.checked_mul(pow) {
        None => {
            proof {
                assert(max_number(steps as nat) > u128::MAX) by (nonlinear_arith)
                    requires
                        max_number(steps as nat) == (steps % 9 + 2) * pow - 2,
                        last_place_max * pow > u128::MAX,
                        last_place_max == steps % 9 + 1,
                        1 <= last_place_max <= 9,
                        pow >= 1,
                ;
            }
            None
        },
        Some(top) => {
            proof {
                assert(top >= 1) by (nonlinear_arith)
                    requires
                        top == last_place_max * pow,
                        last_place_max >= 1,
                        pow >= 1,
                ;
                assert(top + nines - 1 == (steps % 9 + 2) * pow - 2) by (nonlinear_arith)
                    requires
                        top == (steps % 9 + 1) * pow,
                        nines + 1 == pow,
                ;
            }
            (top - 1).checked_add(nines)
        },
    }
}

} // verus!
