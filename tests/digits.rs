use ant_cells::digits::{get_last_digit, num_to_vec, sum_digits, unsigned_magnitude};

#[test]
fn num_to_vec_is_big_endian() {
    assert_eq!(num_to_vec(1203), vec![1, 2, 0, 3]);
    assert_eq!(num_to_vec(7), vec![7]);
    assert_eq!(num_to_vec(1000), vec![1, 0, 0, 0]);
}

#[test]
fn num_to_vec_of_zero_is_one_digit() {
    assert_eq!(num_to_vec(0), vec![0]);
}

#[test]
fn num_to_vec_ignores_sign() {
    assert_eq!(num_to_vec(-45), vec![4, 5]);
    assert_eq!(num_to_vec(i64::MIN).len(), 19);
    assert_eq!(num_to_vec(i64::MAX), num_to_vec(i64::MIN + 1));
}

#[test]
fn last_digit_is_lowest() {
    assert_eq!(get_last_digit(1234), 4);
    assert_eq!(get_last_digit(0), 0);
    assert_eq!(get_last_digit(u128::MAX), 5);
}

#[test]
fn magnitude_of_extremes() {
    assert_eq!(unsigned_magnitude(i64::MIN), 9223372036854775808u128);
    assert_eq!(unsigned_magnitude(-3), 3);
    assert_eq!(unsigned_magnitude(12), 12);
}

#[test]
fn sum_digits_values() {
    assert_eq!(sum_digits(0), 0);
    assert_eq!(sum_digits(1000), 1);
    assert_eq!(sum_digits(9999), 36);
    assert_eq!(sum_digits(-123), 6);
    assert_eq!(sum_digits(i64::MIN), 89);
}

#[test]
fn sum_digits_sign_invariant() {
    for n in [0i64, 1, 9, 10, 58, 1000, 987654321, i64::MAX] {
        assert_eq!(sum_digits(n), sum_digits(-n));
    }
}

#[test]
fn digits_round_trip() {
    for n in [0i64, 5, 10, 1203, 99999, 4000000001] {
        let digits = num_to_vec(n);
        let mut joined: i64 = 0;
        for d in &digits {
            joined = joined * 10 + *d as i64;
        }
        assert_eq!(joined, n);
        assert_eq!(sum_digits(joined), sum_digits(n));
        let total: u16 = digits.iter().map(|d| *d as u16).sum();
        assert_eq!(total, sum_digits(n));
    }
}
