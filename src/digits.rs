//! Decimal digits of integers and their sums.

use vstd::prelude::*;

verus! {

/// `10^k`.
pub open spec fn pow10(k: nat) -> nat
    decreases k,
{
    if k == 0 {
        1
    } else {
        10 * pow10((k - 1) as nat)
    }
}

/// Absolute value of an integer.
pub open spec fn magnitude(n: int) -> nat {
    if n < 0 {
        (-n) as nat
    } else {
        n as nat
    }
}

/// Sum of the decimal digits of `n`.
pub open spec fn digit_sum(n: nat) -> nat
    decreases n,
{
    if n < 10 {
        n
    } else {
        digit_sum(n / 10) + n % 10
    }
}

/// Digit sum of an integer, its sign ignored.
pub open spec fn signed_digit_sum(n: int) -> nat {
    digit_sum(magnitude(n))
}

/// The decimal digits of `n`, most significant first; `0` has the single digit `0`.
pub open spec fn digits_of(n: nat) -> Seq<u8>
    decreases n,
{
    if n < 10 {
        seq![n as u8]
    } else {
        digits_of(n / 10).push((n % 10) as u8)
    }
}

/// The number whose decimal digits, most significant first, are `d`.
pub open spec fn from_digits(d: Seq<u8>) -> nat
    decreases d.len(),
{
    if d.len() == 0 {
        0
    } else {
        from_digits(d.drop_last()) * 10 + d.last() as nat
    }
}

/// Sum of the entries of a digit sequence.
pub open spec fn seq_sum(d: Seq<u8>) -> nat
    decreases d.len(),
{
    if d.len() == 0 {
        0
    } else {
        seq_sum(d.drop_last()) + d.last() as nat
    }
}

/// Every entry of `digits_of(n)` is a decimal digit.
pub proof fn lemma_digits_are_digits(n: nat)
    ensures
        forall|i: int| 0 <= i < digits_of(n).len() ==> #[trigger] digits_of(n)[i] < 10,
        digits_of(n).len() >= 1,
    decreases n,
{
    if n >= 10 {
        lemma_digits_are_digits(n / 10);
    }
}

/// A number below `10^k` has at most `k` digits.
pub proof fn lemma_digits_len(n: nat, k: nat)
    requires
        k >= 1,
        n < pow10(k),
    ensures
        digits_of(n).len() <= k,
    decreases k,
{
    if n >= 10 {
        assert(k >= 2) by {
            if k == 1 {
                assert(pow10(1) == 10) by {
                    reveal_with_fuel(pow10, 2);
                }
            }
        }
        assert(n / 10 < pow10((k - 1) as nat));
        lemma_digits_len(n / 10, (k - 1) as nat);
    }
}

/// Summing the digits of `n` gives its digit sum.
pub proof fn lemma_seq_sum_digits(n: nat)
    ensures
        seq_sum(digits_of(n)) == digit_sum(n),
    decreases n,
{
    let d = digits_of(n);
    assert(d.len() > 0) by {
        lemma_digits_are_digits(n);
    }
    if n < 10 {
        assert(d.drop_last() =~= Seq::<u8>::empty());
        assert(seq_sum(d.drop_last()) == 0);
        assert(d.last() as nat == n);
    } else {
        lemma_seq_sum_digits(n / 10);
        assert(d.drop_last() =~= digits_of(n / 10));
        assert(d.last() as nat == n % 10);
    }
    assert(seq_sum(d) == seq_sum(d.drop_last()) + d.last() as nat);
}

/// Reading the digits of `n` back as a number gives `n`.
pub proof fn lemma_from_digits_of(n: nat)
    ensures
        from_digits(digits_of(n)) == n,
    decreases n,
{
    let d = digits_of(n);
    assert(d.len() > 0) by {
        lemma_digits_are_digits(n);
    }
    if n < 10 {
        assert(d.drop_last() =~= Seq::<u8>::empty());
        assert(from_digits(d.drop_last()) == 0);
        assert(d.last() as nat == n);
    } else {
        lemma_from_digits_of(n / 10);
        assert(d.drop_last() =~= digits_of(n / 10));
        assert(d.last() as nat == n % 10);
    }
    assert(from_digits(d) == from_digits(d.drop_last()) * 10 + d.last() as nat);
}

/// Decomposing a non-negative number into digits and concatenating them again
/// leaves its digit sum unchanged; the digits themselves sum to it as well.
pub proof fn lemma_digits_round_trip(n: nat)
    ensures
        digit_sum(from_digits(digits_of(n))) == digit_sum(n),
        seq_sum(digits_of(n)) == digit_sum(n),
{
    lemma_from_digits_of(n);
    lemma_seq_sum_digits(n);
}

/// The digit sum of an integer does not depend on its sign.
pub proof fn lemma_digit_sum_sign(n: int)
    ensures
        signed_digit_sum(n) == signed_digit_sum(-n),
{
}

/// Lowest decimal digit of `num`.
pub fn get_last_digit(num: u128) -> (r: u8)
    ensures
        r as nat == num % 10,
{
    (num % 10) as u8
}

/// Absolute value of `num`, widened so that it always fits.
pub fn unsigned_magnitude(num: i64) -> (r: u128)
    ensures
        r as nat == magnitude(num as int),
{
    let wide: i128 = num as i128;
    if wide < 0 {
        (0 - wide) as u128
    } else {
        wide as u128
    }
}

/// The decimal digits of `|num|`, most significant first.
pub fn num_to_vec(num: i64) -> (r: Vec<u8>)
    ensures
        r@ == digits_of(magnitude(num as int)),
{
    let mut digits: Vec<u8> = Vec::new();
    let mut n: u128 = unsigned_magnitude(num);
    let ghost whole: nat = n as nat;
    while n > 9
        invariant
            digits_of(whole) == digits_of(n as nat) + digits@,
        decreases n,
    {
        let d = get_last_digit(n);
        let ghost before = digits@;
        digits.insert(0, d);
        proof {
            assert(digits_of(n as nat) == digits_of((n / 10) as nat).push(d));
            assert(digits_of((n / 10) as nat) + digits@ =~= digits_of(n as nat) + before);
        }
        n = n / 10;
    }
    let d = get_last_digit(n);
    let ghost before = digits@;
    digits.insert(0, d);
    proof {
        assert(digits_of(n as nat) =~= seq![d]);
        assert(digits@ =~= digits_of(n as nat) + before);
    }
    digits
}

/// Sum of the decimal digits of `|num|`.
pub fn sum_digits(num: i64) -> (r: u16)
    ensures
        r as nat == signed_digit_sum(num as int),
{
    let digits = num_to_vec(num);
    let ghost n: nat = magnitude(num as int);
    proof {
        lemma_digits_are_digits(n);
        reveal_with_fuel(pow10, 20);
        assert(pow10(19) == 10000000000000000000nat);
        lemma_digits_len(n, 19);
        lemma_seq_sum_digits(n);
    }
    let mut sum: u16 = 0;
    let mut i: usize = 0;
    while i < digits.len()
        invariant
            digits@ == digits_of(n),
            digits@.len() <= 19,
            forall|j: int| 0 <= j < digits@.len() ==> #[trigger] digits@[j] < 10,
            i <= digits@.len(),
            sum as nat == seq_sum(digits@.take(i as int)),
            sum <= 9 * i,
        decreases digits@.len() - i,
    {
        proof {
            assert(digits@.take(i + 1).drop_last() =~= digits@.take(i as int));
        }
        sum = sum + digits[i] as u16;
        i = i + 1;
    }
    proof {
        assert(digits@.take(i as int) =~= digits@);
    }
    sum
}

} // verus!
