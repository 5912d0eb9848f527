use ant_cells::axis::get_max_number;
use ant_cells::digits::sum_digits;
use ant_cells::quadrant::{count_reachable, get_reserved_steps, validate, QueryError};
use std::collections::{HashSet, VecDeque};

fn cost(x: i64, y: i64) -> u16 {
    sum_digits(x) + sum_digits(y)
}

/// Cells reachable from `(x, y)` by unit moves, found by flood fill.
fn flood(x: i64, y: i64, steps: u16) -> Option<u128> {
    if cost(x, y) > steps {
        return None;
    }
    let mut seen: HashSet<(i64, i64)> = HashSet::new();
    let mut queue: VecDeque<(i64, i64)> = VecDeque::new();
    seen.insert((x, y));
    queue.push_back((x, y));
    while let Some((a, b)) = queue.pop_front() {
        for next in [(a + 1, b), (a - 1, b), (a, b + 1), (a, b - 1)] {
            if cost(next.0, next.1) <= steps && seen.insert(next) {
                queue.push_back(next);
            }
        }
    }
    Some(seen.len() as u128)
}

#[test]
fn validate_compares_digit_sums() {
    assert!(validate(0, 0, 0));
    assert!(!validate(10, 0, 0));
    assert!(validate(1000, 1000, 2));
    assert!(!validate(1000, -1000, 1));
    assert!(validate(i64::MIN, i64::MIN, 178));
    assert!(!validate(i64::MIN, i64::MIN, 177));
}

#[test]
fn reserved_steps_values() {
    assert_eq!(get_reserved_steps(0, 0, 0), (0, 0));
    assert_eq!(get_reserved_steps(25, 1000, 1000), (1, 1));
    assert_eq!(get_reserved_steps(5, 1000, 1000), (1, 1));
    assert_eq!(get_reserved_steps(10, 1000, 0), (1, 0));
    assert_eq!(get_reserved_steps(7, 5, 0), (0, 0));
    assert_eq!(get_reserved_steps(20, 23, 45), (0, 0));
    assert_eq!(get_reserved_steps(12, -7, 3), (0, 0));
    assert_eq!(get_reserved_steps(10, 19, 0), (0, 0));
    assert_eq!(get_reserved_steps(11, 1900, 0), (10, 0));
    assert_eq!(get_reserved_steps(15, 1900, 5), (10, 0));
}

#[test]
fn max_number_values() {
    assert_eq!(get_max_number(0), Some(0));
    assert_eq!(get_max_number(1), Some(1));
    assert_eq!(get_max_number(8), Some(8));
    assert_eq!(get_max_number(9), Some(18));
    assert_eq!(get_max_number(10), Some(28));
    assert_eq!(get_max_number(18), Some(198));
    assert_eq!(get_max_number(343), Some(299999999999999999999999999999999999998));
    assert_eq!(get_max_number(344), None);
    assert_eq!(get_max_number(u32::MAX), None);
}

#[test]
fn max_number_ends_the_run() {
    for steps in 0u32..40 {
        let n = get_max_number(steps).unwrap();
        assert_eq!(sum_digits(n as i64) as u32, steps);
        assert_eq!(sum_digits(n as i64 + 1) as u32, steps + 1);
        for m in 0..=n.min(5000) {
            assert!(sum_digits(m as i64) as u32 <= steps);
        }
    }
}

#[test]
fn origin_with_no_budget() {
    assert_eq!(count_reachable(0, 0, 0), Ok(1));
    assert_eq!(flood(0, 0, 0), Some(1));
}

#[test]
fn origin_with_one_step() {
    assert_eq!(count_reachable(0, 0, 1), Ok(5));
    assert_eq!(flood(0, 0, 1), Some(5));
}

#[test]
fn unreachable_target() {
    assert_eq!(count_reachable(10, 0, 0), Err(QueryError::Unreachable));
    assert_eq!(count_reachable(-999, 999, 53), Err(QueryError::Unreachable));
}

#[test]
fn default_configuration() {
    let first = count_reachable(1000, 1000, 25);
    assert_eq!(first, Ok(148848));
    assert_eq!(count_reachable(1000, 1000, 25), first);
    assert_eq!(flood(1000, 1000, 25), Some(148848));
}

#[test]
fn reduced_budget_matches_flood() {
    assert_eq!(count_reachable(1000, 1000, 5), Ok(10));
    assert_eq!(flood(1000, 1000, 5), Some(10));
    assert_eq!(count_reachable(1000, 1000, 20), Ok(12175));
    assert_eq!(flood(1000, 1000, 20), Some(12175));
}

#[test]
fn around_origin_matches_flood() {
    for steps in 0u16..=20 {
        assert_eq!(count_reachable(0, 0, steps).ok(), flood(0, 0, steps));
    }
    assert_eq!(count_reachable(0, 0, 18), Ok(47905));
    assert_eq!(count_reachable(23, 45, 20), Ok(181533));
    assert_eq!(count_reachable(-7, 3, 12), Ok(3245));
    assert_eq!(count_reachable(5, 0, 7), Ok(113));
}

#[test]
fn single_axis_correction_formula() {
    // one coordinate reserved: twice the quadrant count run(9) = 145, less max_number(9) = 18
    assert_eq!(get_reserved_steps(10, 1000, 0), (1, 0));
    assert_eq!(count_reachable(1000, 0, 10), Ok(2 * 145 - 18));
}

#[test]
fn count_out_of_range() {
    assert_eq!(count_reachable(0, 0, 600), Err(QueryError::OutOfRange));
    assert_eq!(count_reachable(1, 1, u16::MAX), Err(QueryError::OutOfRange));
}
