//! The recursive tiling count: how many cells of a square of side `10^(place+1)`
//! the ant reaches from its corner with a given digit-sum budget, memoised by
//! `(budget, place)`.

use std::collections::HashMap;
use crate::digits::pow10;
use vstd::prelude::*;

verus! {

broadcast use vstd::std_specs::hash::group_hash_axioms;

/// Number of ordered pairs of decimal digits `(a, b)` with `a + b == s`.
pub open spec fn weight(s: int) -> nat {
    if 0 <= s <= 9 {
        (s + 1) as nat
    } else if 9 < s <= 18 {
        (19 - s) as nat
    } else {
        0
    }
}

/// `weight(0) + ... + weight(n - 1)`.
pub open spec fn weight_prefix(n: nat) -> nat
    decreases n,
{
    if n == 0 {
        0
    } else {
        weight_prefix((n - 1) as nat) + weight((n - 1) as int)
    }
}

/// Least budget at which the digits at `place` may leave zero.
pub open spec fn breakpoint(place: nat) -> int {
    if place == 0 {
        0
    } else {
        9 * place - 1
    }
}

/// Cells counted over the lowest `depth` decimal places with budget `budget`.
/// With no place left there is the one cell already reached. Otherwise, below
/// the breakpoint of the top place its digits stay zero; from it on, the top
/// digit pair may take any sum `s` up to `budget - breakpoint` (at most 18),
/// with `weight(s)` pairs each, and the lower places get `budget - s`.
pub open spec fn cells(budget: int, depth: nat) -> nat
    decreases depth, 20nat,
{
    if depth == 0 {
        1
    } else {
        let bp = breakpoint((depth - 1) as nat);
        if budget < bp {
            cells(budget, (depth - 1) as nat)
        } else {
            let top = if budget - bp < 18 { budget - bp } else { 18 };
            row(budget, depth, (top + 1) as nat)
        }
    }
}

/// `sum over s < n` of `weight(s) * cells(budget - s, depth - 1)`.
pub open spec fn row(budget: int, depth: nat, n: nat) -> nat
    decreases depth, n,
{
    if depth == 0 || n == 0 {
        0
    } else {
        row(budget, depth, (n - 1) as nat) + weight(n - 1) * cells(
            budget - (n - 1),
            (depth - 1) as nat,
        )
    }
}

/// The count that the engine returns for `(budget, place)`.
pub open spec fn tile_count(budget: int, place: nat) -> nat {
    cells(budget, place + 1)
}

/// `Some(v)` when `v` fits in 128 bits, `None` otherwise.
pub open spec fn fitted(v: nat) -> Option<u128> {
    if v <= u128::MAX {
        Some(v as u128)
    } else {
        None
    }
}

/// Number of digit pairs for each combined digit sum `0..=18`.
pub const SQUARE: [u8; 19] = [1, 2, 3, 4, 5, 6, 7, 8, 9, 10, 9, 8, 7, 6, 5, 4, 3, 2, 1];

/// Weight of the combined digit sum `s`.
pub fn pair_weight(s: u16) -> (r: u8)
    requires
        s <= 18,
    ensures
        r as nat == weight(s as int),
{
    SQUARE[s as usize]
}


/// Adding terms never makes a row smaller, and each term is at most the row.
pub proof fn lemma_row_grows(budget: int, depth: nat, n: nat, m: nat)
    requires
        depth >= 1,
        n <= m,
    ensures
        row(budget, depth, n) <= row(budget, depth, m),
        n < m ==> weight(n as int) * cells(budget - n, (depth - 1) as nat) <= row(
            budget,
            depth,
            m,
        ),
    decreases m,
{
    if n < m {
        lemma_row_grows(budget, depth, n, (m - 1) as nat);
    }
}

/// `weight_prefix(19) == 100`: all digit pairs.
pub proof fn lemma_all_weights()
    ensures
        weight_prefix(19) == 100,
{
    reveal_with_fuel(weight_prefix, 20);
}

/// At the lowest place a row is a plain sum of weights.
pub proof fn lemma_row_lowest(budget: int, n: nat)
    ensures
        row(budget, 1, n) == weight_prefix(n),
    decreases n,
{
    if n > 0 {
        lemma_row_lowest(budget, (n - 1) as nat);
        assert(cells(budget - (n - 1), 0) == 1);
    }
}

/// A row of one term is the lower count at the full budget.
proof fn lemma_row_first(budget: int, depth: nat)
    requires
        depth >= 1,
    ensures
        row(budget, depth, 1) == cells(budget, (depth - 1) as nat),
{
    reveal_with_fuel(row, 2);
    let a = cells(budget, (depth - 1) as nat);
    assert(weight(0) == 1);
    assert(weight(0) * a == a) by (nonlinear_arith)
        requires
            weight(0) == 1,
    ;
}

/// One more unit of budget never loses a cell.
proof fn lemma_cells_budget_step(budget: int, depth: nat)
    ensures
        cells(budget, depth) <= cells(budget + 1, depth),
    decreases depth, 20nat,
{
    if depth > 0 {
        let lower = (depth - 1) as nat;
        let bp = breakpoint(lower);
        if budget + 1 < bp {
            lemma_cells_budget_step(budget, lower);
        } else if budget < bp {
            lemma_cells_budget_step(budget, lower);
            lemma_row_first(budget + 1, depth);
        } else {
            let top = if budget - bp < 18 { budget - bp } else { 18 };
            let top1 = if budget + 1 - bp < 18 { budget + 1 - bp } else { 18 };
            lemma_row_budget_step(budget, depth, (top + 1) as nat);
            lemma_row_grows(budget + 1, depth, (top + 1) as nat, (top1 + 1) as nat);
        }
    }
}

/// Row version of `lemma_cells_budget_step`, term by term.
proof fn lemma_row_budget_step(budget: int, depth: nat, n: nat)
    requires
        depth >= 1,
        n <= 19,
    ensures
        row(budget, depth, n) <= row(budget + 1, depth, n),
    decreases depth, n,
{
    if n > 0 {
        let lower = (depth - 1) as nat;
        lemma_row_budget_step(budget, depth, (n - 1) as nat);
        lemma_cells_budget_step(budget - (n - 1), lower);
        let w = weight(n - 1);
        let a = cells(budget - (n - 1), lower);
        let b = cells(budget + 1 - (n - 1), lower);
        assert(w * a <= w * b) by (nonlinear_arith)
            requires
                a <= b,
        ;
    }
}

/// The count never decreases as the budget grows.
pub proof fn lemma_count_monotone_budget(low: nat, high: nat, place: nat)
    requires
        low <= high,
    ensures
        tile_count(low as int, place) <= tile_count(high as int, place),
    decreases high - low,
{
    if low < high {
        lemma_count_monotone_budget(low, (high - 1) as nat, place);
        lemma_cells_budget_step(high - 1, place + 1);
    }
}

/// One more place never loses a cell.
proof fn lemma_cells_depth_step(budget: int, depth: nat)
    ensures
        cells(budget, depth) <= cells(budget, depth + 1),
{
    let bp = breakpoint(depth);
    if budget >= bp {
        let top = if budget - bp < 18 { budget - bp } else { 18 };
        assert(cells(budget, depth + 1) == row(budget, depth + 1, (top + 1) as nat));
        lemma_row_first(budget, depth + 1);
        lemma_row_grows(budget, depth + 1, 1, (top + 1) as nat);
    }
}

/// The count never decreases as the place grows.
pub proof fn lemma_count_monotone_place(budget: nat, place: nat)
    ensures
        tile_count(budget as int, place) <= tile_count(budget as int, place + 1),
{
    lemma_cells_depth_step(budget as int, place + 1);
}

/// `cells` is non-decreasing in the depth over any distance.
proof fn lemma_cells_depth_mono(budget: int, low: nat, high: nat)
    requires
        low <= high,
    ensures
        cells(budget, low) <= cells(budget, high),
    decreases high - low,
{
    if low < high {
        lemma_cells_depth_mono(budget, low, (high - 1) as nat);
        lemma_cells_depth_step(budget, (high - 1) as nat);
    }
}

/// At place 0 the count is the sum of the weights of the combined digit sums
/// up to the budget, which is all 100 digit pairs from budget 18 on.
pub proof fn lemma_count_lowest_place(budget: nat)
    ensures
        tile_count(budget as int, 0) == weight_prefix(
            (if budget < 18 { budget } else { 18nat }) + 1,
        ),
        budget >= 18 ==> tile_count(budget as int, 0) == 100,
{
    let top: nat = if budget < 18 { budget } else { 18nat };
    lemma_row_lowest(budget as int, top + 1);
    lemma_all_weights();
}

/// With budget at least `27 * depth - 9` every place is saturated, so the
/// count is at least `100^depth`.
proof fn lemma_cells_floor(budget: int, depth: nat)
    requires
        budget >= 27 * depth - 9,
    ensures
        cells(budget, depth) >= pow10(2 * depth),
    decreases depth, 20nat,
{
    if depth > 0 {
        lemma_row_floor(budget, depth, 19);
        lemma_all_weights();
        assert(pow10(2 * depth) == 100 * pow10((2 * (depth - 1)) as nat)) by {
            assert(pow10(2 * depth) == 10 * pow10((2 * depth - 1) as nat));
            assert(pow10((2 * depth - 1) as nat) == 10 * pow10((2 * (depth - 1)) as nat));
        }
    }
}

/// Row version of `lemma_cells_floor`.
proof fn lemma_row_floor(budget: int, depth: nat, n: nat)
    requires
        depth >= 1,
        n <= 19,
        budget >= 27 * depth - 9,
    ensures
        row(budget, depth, n) >= weight_prefix(n) * pow10((2 * (depth - 1)) as nat),
    decreases depth, n,
{
    let c = pow10((2 * (depth - 1)) as nat);
    if n == 0 {
        assert(weight_prefix(n) * c == 0) by (nonlinear_arith)
            requires
                weight_prefix(n) == 0,
        ;
    } else {
        let lower = (depth - 1) as nat;
        lemma_row_floor(budget, depth, (n - 1) as nat);
        lemma_cells_floor(budget - (n - 1), lower);
        let w = weight(n - 1);
        let a = cells(budget - (n - 1), lower);
        let p = weight_prefix((n - 1) as nat);
        assert(w * a >= w * c) by (nonlinear_arith)
            requires
                a >= c,
        ;
        assert(weight_prefix(n) == p + w);
        assert(weight_prefix(n) * c == p * c + w * c) by (nonlinear_arith)
            requires
                weight_prefix(n) == p + w,
        ;
        assert(row(budget, depth, n) == row(budget, depth, (n - 1) as nat) + w * a);
    }
}

/// The key under which the result for `(budget, place)` is stored.
pub open spec fn cache_key(budget: u16, place: u8) -> u32 {
    (budget as u32 * 256 + place as u32) as u32
}

/// `after` keeps every entry of `before` unchanged, and each key it adds
/// belongs to a budget of at most `step` and a place of at most `place`.
pub open spec fn grows_within(
    before: Map<u32, u128>,
    after: Map<u32, u128>,
    step: int,
    place: int,
) -> bool {
    &&& forall|k: u32| #[trigger]
        before.contains_key(k) ==> after.contains_key(k) && after[k] == before[k]
    &&& forall|k: u32| #[trigger]
        after.contains_key(k) && !before.contains_key(k) ==> k / 256 <= step && k % 256 <= place
}

/// A memo of engine results keyed by `(budget, place)`.
pub struct CallCache {
    entries: HashMap<u32, u128>,
}

impl View for CallCache {
    type V = Map<u32, u128>;

    /// The stored entries, by `cache_key`.
    closed spec fn view(&self) -> Map<u32, u128> {
        self.entries@
    }
}

impl CallCache {
    /// Every stored entry is the engine's result for its key.
    pub closed spec fn wf(&self) -> bool {
        forall|k: u32|
            #[trigger] self.entries@.contains_key(k) ==> self.entries@[k] as nat == tile_count(
                (k / 256) as int,
                (k % 256) as nat,
            )
    }

    /// An empty cache.
    pub fn new() -> (r: CallCache)
        ensures
            r.wf(),
            r@ == Map::<u32, u128>::empty(),
    {
        CallCache { entries: HashMap::new() }
    }

    /// The stored result for `(budget, place)`, if any.
    pub fn lookup(&self, budget: u16, place: u8) -> (r: Option<u128>)
        requires
            self.wf(),
        ensures
            r == (if self@.contains_key(cache_key(budget, place)) {
                Some(self@[cache_key(budget, place)])
            } else {
                None
            }),
            r matches Some(v) ==> v as nat == tile_count(budget as int, place as nat),
    {
        let key: u32 = budget as u32 * 256 + place as u32;
        match self.entries.get(&key) {
            Some(v) => Some(*v),
            None => None,
        }
    }

    /// Records the result for `(budget, place)`.
    pub fn store(&mut self, budget: u16, place: u8, value: u128)
        requires
            old(self).wf(),
            value as nat == tile_count(budget as int, place as nat),
        ensures
            final(self).wf(),
            final(self)@ == old(self)@.insert(cache_key(budget, place), value),
    {
        let key: u32 = budget as u32 * 256 + place as u32;
        assert(key / 256 == budget && key % 256 == place);
        self.entries.insert(key, value);
    }
}

/// Budget at which the digits at `place` may leave zero.
pub fn place_breakpoint(place: u8) -> (r: u16)
    ensures
        r as int == breakpoint(place as nat),
{
    if place == 0 {
        0
    } else {
        9 * place as u16 - 1
    }
}

/// Cells of the square of side `10^(place+1)` reached with budget `step`
/// (`tile_count(step, place)`), or `None` when that count exceeds 128 bits.
/// Results are taken from and added to `cache`; the result does not depend on
/// what the cache held.
pub fn _run_per_digit(step: u16, place: u8, cache: &mut CallCache) -> (r: Option<u128>)
    requires
        old(cache).wf(),
    ensures
        final(cache).wf(),
        r == fitted(tile_count(step as int, place as nat)),
        old(cache)@.contains_key(cache_key(step, place)) ==> r == Some(
            old(cache)@[cache_key(step, place)],
        ) && final(cache)@ == old(cache)@,
        r matches Some(v) ==> final(cache)@.contains_key(cache_key(step, place))
            && final(cache)@[cache_key(step, place)] == v,
        grows_within(old(cache)@, final(cache)@, step as int, place as int),
    decreases place,
{
    if let Some(v) = cache.lookup(step, place) {
        return Some(v);
    }
    let ghost depth: nat = place as nat + 1;
    let ghost before = cache@;
    assert(cache_key(step, place) / 256 == step && cache_key(step, place) % 256 == place);
    let bp = place_breakpoint(place);
    let result: Option<u128> = if step < bp {
        _run_per_digit(step, place - 1, cache)
    } else {
        let top: u16 = if step - bp < 18 { step - bp } else { 18 };
        assert(cells(step as int, depth) == row(step as int, depth, (top + 1) as nat));
        if place == 0 {
            proof {
                lemma_row_lowest(step as int, (top + 1) as nat);
                lemma_all_weights();
            }
            if top == 18 {
                Some(100)
            } else {
                let mut sum: u128 = 0;
                let mut s: u16 = 0;
                while s <= top
                    invariant
                        top < 18,
                        s <= top + 1,
                        sum as nat == weight_prefix(s as nat),
                        sum <= 100,
                    decreases top + 1 - s,
                {
                    proof {
                        reveal_with_fuel(weight_prefix, 20);
                    }
                    sum = sum + pair_weight(s) as u128;
                    s = s + 1;
                }
                Some(sum)
            }
        } else {
            let lower: u8 = place - 1;
            let mut sum: u128 = 0;
            let mut s: u16 = 0;
            let mut overflow: bool = false;
            while s <= top
                invariant
                    cache.wf(),
                    grows_within(before, cache@, step as int, place as int),
                    top <= 18,
                    top as int <= step - bp,
                    depth == place as nat + 1,
                    lower as nat + 1 == place as nat,
                    place >= 1,
                    s <= top + 1,
                    !overflow ==> sum as nat == row(step as int, depth, s as nat),
                    overflow ==> row(step as int, depth, (top + 1) as nat) > u128::MAX,
                ensures
                    cache.wf(),
                    grows_within(before, cache@, step as int, place as int),
                    !overflow ==> sum as nat == row(step as int, depth, (top + 1) as nat),
                    overflow ==> row(step as int, depth, (top + 1) as nat) > u128::MAX,
                decreases top + 1 - s,
            {
                let below = _run_per_digit(step - s, lower, cache);
                let ghost c = cells(step - s, lower as nat + 1);
                proof {
                    lemma_row_grows(step as int, depth, s as nat, (top + 1) as nat);
                    lemma_row_grows(step as int, depth, (s + 1) as nat, (top + 1) as nat);
                    assert(weight(s as int) >= 1);
                    assert(c <= weight(s as int) * c) by (nonlinear_arith)
                        requires
                            weight(s as int) >= 1,
                    ;
                }
                match below {
                    None => {
                        overflow = true;
                        break;
                    },
                    Some(c_exec) => {
                        let w: u128 = pair_weight(s) as u128;
                        match w.checked_mul(c_exec) {
                            None => {
                                overflow = true;
                                break;
                            },
                            Some(term) => match sum.checked_add(term) {
                                None => {
                                    overflow = true;
                                    break;
                                },
                                Some(next) => {
                                    sum = next;
                                },
                            },
                        }
                    },
                }
                s = s + 1;
            }
            if overflow {
                None
            } else {
                Some(sum)
            }
        }
    };
    if let Some(v) = result {
        cache.store(step, place, v);
    }
    result
}

/// The engine's result for `(budget, place)` computed with a fresh cache:
/// the same on every call, whatever was computed before.
pub fn count(budget: u16, place: u8) -> (r: Option<u128>)
    ensures
        r == fitted(tile_count(budget as int, place as nat)),
{
    let mut cache = CallCache::new();
    _run_per_digit(budget, place, &mut cache)
}

/// Cells reached in the non-negative quadrant with budget `step`: the engine at
/// place `step / 9`, the least place whose square holds every such cell.
/// `None` when the count exceeds 128 bits.
pub fn run(step: u16, cache: &mut CallCache) -> (r: Option<u128>)
    requires
        old(cache).wf(),
    ensures
        final(cache).wf(),
        r == fitted(tile_count(step as int, (step / 9) as nat)),
        r matches Some(v) ==> final(cache)@.contains_key(cache_key(step, (step / 9) as u8))
            && final(cache)@[cache_key(step, (step / 9) as u8)] == v,
        grows_within(old(cache)@, final(cache)@, step as int, (step / 9) as int),
{
    let place: u16 = step / 9;
    if place > 255 {
        proof {
            lemma_cells_floor(step as int, 20);
            lemma_cells_depth_mono(step as int, 20, place as nat + 1);
            reveal_with_fuel(pow10, 41);
            assert(pow10(40) == 10000000000000000000000000000000000000000nat);
        }
        None
    } else {
        _run_per_digit(step, place as u8, cache)
    }
}

} // verus!
