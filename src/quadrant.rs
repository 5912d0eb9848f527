//! From a target point and a budget to the number of reachable cells.

use crate::axis::{get_max_number, max_number};
use crate::digits::{
    digit_sum, get_last_digit, magnitude, signed_digit_sum, sum_digits, unsigned_magnitude,
};
use crate::tiling::{breakpoint, run, tile_count, CallCache};
use vstd::prelude::*;

verus! {

/// Why a query has no count.
#[derive(Debug, Clone, Copy, PartialEq, Eq, Structural)]
pub enum QueryError {
    /// The digit sums of the target's coordinates exceed the budget.
    Unreachable,
    /// The count, or a term of its correction, does not fit in 128 bits.
    OutOfRange,
}

/// The point `(x, y)` itself keeps within budget `steps`.
pub open spec fn reachable(x: int, y: int, steps: int) -> bool {
    signed_digit_sum(x) + signed_digit_sum(y) <= steps
}

/// Digit-sum cost of the digits of `a` and `b` that cannot vary, where `a` and
/// `b` are what is left of the coordinates at decimal position `place`. Going
/// up from the lowest position, a position is freed while the budget left
/// after the digits not yet freed reaches its breakpoint; the first position
/// that fails, and every one above it, stays reserved.
pub open spec fn reserved(steps: int, a: nat, b: nat, place: nat) -> (nat, nat)
    decreases a + b,
{
    if a == 0 && b == 0 {
        (0, 0)
    } else if steps < digit_sum(a) + digit_sum(b) + breakpoint(place) {
        (digit_sum(a), digit_sum(b))
    } else {
        reserved(steps, a / 10, b / 10, place + 1)
    }
}

/// Reserved digit-sum cost of each coordinate of `(x, y)` under budget `steps`.
pub open spec fn reserved_steps(steps: int, x: int, y: int) -> (nat, nat) {
    reserved(steps, magnitude(x), magnitude(y), 0)
}

/// The base count adjusted for the axes the point may cross: doubled less the
/// cells on the axis when one coordinate is fully free, quadrupled less the
/// cells on both axes and three copies of the origin when both are.
pub open spec fn corrected(base: int, axis: int, rx: nat, ry: nat) -> int {
    if rx != 0 && ry != 0 {
        base
    } else if rx == 0 && ry == 0 {
        4 * base - (4 * axis + 3)
    } else {
        2 * base - axis
    }
}

/// The answer to the query `(x, y, steps)`.
pub open spec fn query_outcome(x: int, y: int, steps: int) -> Result<u128, QueryError> {
    if !reachable(x, y, steps) {
        Err(QueryError::Unreachable)
    } else {
        let (rx, ry) = reserved_steps(steps, x, y);
        let free = steps - rx - ry;
        let base = tile_count(free, (free / 9) as nat);
        let axis = max_number(free as nat);
        let v = corrected(base as int, axis as int, rx, ry);
        if base <= u128::MAX && ((rx == 0 || ry == 0) ==> axis <= u128::MAX) && 0 <= v
            <= u128::MAX {
            Ok(v as u128)
        } else {
            Err(QueryError::OutOfRange)
        }
    }
}

/// Splitting off the lowest digit.
proof fn lemma_digit_sum_split(n: nat)
    ensures
        digit_sum(n) == digit_sum(n / 10) + n % 10,
{
    if n < 10 {
        assert(digit_sum(0) == 0);
    }
}

/// Whether the point `(x, y)` keeps within budget `steps`.
pub fn validate(x: i64, y: i64, steps: u16) -> (r: bool)
    ensures
        r == reachable(x as int, y as int, steps as int),
{
    let sx = sum_digits(x);
    let sy = sum_digits(y);
    sx as u32 + sy as u32 <= steps as u32
}

/// Reserved digit-sum cost of `x` and of `y` under budget `steps`.
pub fn get_reserved_steps(steps: u16, x: i64, y: i64) -> (r: (u16, u16))
    requires
        reachable(x as int, y as int, steps as int),
    ensures
        (r.0 as nat, r.1 as nat) == reserved_steps(steps as int, x as int, y as int),
        r.0 + r.1 <= steps,
{
    let mut a: u128 = unsigned_magnitude(x);
    let mut b: u128 = unsigned_magnitude(y);
    let mut reserved_x_steps: u16 = sum_digits(x);
    let mut reserved_y_steps: u16 = sum_digits(y);
    let ghost whole = reserved_steps(steps as int, x as int, y as int);
    let mut pos: u32 = 0;
    while a > 0 || b > 0
        invariant
            reserved(steps as int, a as nat, b as nat, pos as nat) == whole,
            reserved_x_steps as nat == digit_sum(a as nat),
            reserved_y_steps as nat == digit_sum(b as nat),
            reserved_x_steps + reserved_y_steps <= steps,
            pos <= 7282,
        ensures
            (reserved_x_steps as nat, reserved_y_steps as nat) == whole,
            reserved_x_steps + reserved_y_steps <= steps,
        decreases a + b,
    {
        let free_steps: u16 = steps - reserved_x_steps - reserved_y_steps;
        let bp: u32 = if pos == 0 {
            0
        } else {
            9 * pos - 1
        };
        assert(bp as int == breakpoint(pos as nat));
        if (free_steps as u32) < bp {
            break;
        }
        proof {
            lemma_digit_sum_split(a as nat);
            lemma_digit_sum_split(b as nat);
        }
        reserved_x_steps = reserved_x_steps - get_last_digit(a) as u16;
        reserved_y_steps = reserved_y_steps - get_last_digit(b) as u16;
        a = a / 10;
        b = b / 10;
        pos = pos + 1;
    }
    (reserved_x_steps, reserved_y_steps)
}

/// Number of cells reachable around `(x, y)` with budget `steps`, or why
/// there is none.
pub fn count_reachable(x: i64, y: i64, steps: u16) -> (r: Result<u128, QueryError>)
    ensures
        r == query_outcome(x as int, y as int, steps as int),
{
    if !validate(x, y, steps) {
        return Err(QueryError::Unreachable);
    }
    let (reserved_x_steps, reserved_y_steps) = get_reserved_steps(steps, x, y);
    let free_steps: u16 = steps - reserved_x_steps - reserved_y_steps;
    let mut cache = CallCache::new();
    let base: u128 = match run(free_steps, &mut cache) {
        Some(v) => v,
        None => {
            return Err(QueryError::OutOfRange);
        },
    };
    if reserved_x_steps != 0 && reserved_y_steps != 0 {
        return Ok(base);
    }
    let axis: u128 = match get_max_number(free_steps as u32) {
        Some(v) => v,
        None => {
            return Err(QueryError::OutOfRange);
        },
    };
    if reserved_x_steps == 0 && reserved_y_steps == 0 {
        if base <= axis {
            return Err(QueryError::OutOfRange);
        }
        match (base - axis - 1).checked_mul(4) {
            Some(q) => match q.checked_add(1) {
                Some(v) => Ok(v),
                None => Err(QueryError::OutOfRange),
            },
            None => Err(QueryError::OutOfRange),
        }
    } else if base >= axis {
        match base.checked_add(base - axis) {
            Some(v) => Ok(v),
            None => Err(QueryError::OutOfRange),
        }
    } else if axis - base <= base {
        Ok(base - (axis - base))
    } else {
        Err(QueryError::OutOfRange)
    }
}

} // verus!
