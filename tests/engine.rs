use ant_cells::tiling::{_run_per_digit, count, pair_weight, place_breakpoint, run, CallCache, SQUARE};

#[test]
fn weight_table_is_triangular() {
    assert_eq!(SQUARE.iter().map(|w| *w as u32).sum::<u32>(), 100);
    for s in 0u16..=18 {
        let pairs = (0..10).flat_map(|a| (0..10).map(move |b| a + b)).filter(|t| *t == s).count();
        assert_eq!(pair_weight(s) as usize, pairs);
    }
}

#[test]
fn breakpoints() {
    assert_eq!(place_breakpoint(0), 0);
    assert_eq!(place_breakpoint(1), 8);
    assert_eq!(place_breakpoint(2), 17);
    assert_eq!(place_breakpoint(255), 2294);
}

#[test]
fn count_at_lowest_place() {
    let mut prefix: u128 = 0;
    for budget in 0u16..=18 {
        prefix += SQUARE[budget as usize] as u128;
        assert_eq!(count(budget, 0), Some(prefix));
    }
    assert_eq!(count(0, 0), Some(1));
    assert_eq!(count(1, 0), Some(3));
    assert_eq!(count(9, 0), Some(55));
    assert_eq!(count(17, 0), Some(99));
    assert_eq!(count(18, 0), Some(100));
    assert_eq!(count(40, 0), Some(100));
}

#[test]
fn count_at_higher_places() {
    assert_eq!(count(7, 1), Some(36));
    assert_eq!(count(8, 1), Some(45));
    assert_eq!(count(9, 1), Some(145));
    assert_eq!(count(23, 2), Some(148848));
    assert_eq!(count(30, 3), Some(6343405));
}

#[test]
fn count_is_monotone() {
    for place in 0u8..4 {
        for budget in 0u16..60 {
            let here = count(budget, place).unwrap();
            assert!(here <= count(budget + 1, place).unwrap());
            assert!(here <= count(budget, place + 1).unwrap());
        }
    }
}

#[test]
fn count_reports_overflow() {
    assert!(count(170, 18).is_some());
    assert_eq!(count(200, 20), None);
    assert_eq!(count(1000, 30), None);
}

#[test]
fn run_uses_place_of_budget() {
    let mut cache = CallCache::new();
    assert_eq!(run(0, &mut cache), Some(1));
    assert_eq!(run(9, &mut cache), Some(145));
    assert_eq!(run(23, &mut cache), Some(148848));
    assert_eq!(run(u16::MAX, &mut cache), None);
}

#[test]
fn fresh_caches_agree() {
    for (budget, place) in [(23u16, 2u8), (30, 3), (9, 1), (100, 11)] {
        let mut first = CallCache::new();
        let mut second = CallCache::new();
        let a = _run_per_digit(budget, place, &mut first);
        let b = _run_per_digit(budget, place, &mut second);
        assert_eq!(a, b);
        assert_eq!(a, count(budget, place));
        assert_eq!(_run_per_digit(budget, place, &mut first), a);
    }
}

#[test]
fn cache_holds_results() {
    let mut cache = CallCache::new();
    assert_eq!(cache.lookup(23, 2), None);
    let v = _run_per_digit(23, 2, &mut cache);
    assert_eq!(cache.lookup(23, 2), v);
    cache.store(9, 1, 145);
    assert_eq!(cache.lookup(9, 1), Some(145));
}

#[test]
fn cache_keeps_entries_and_adds_lower_keys() {
    let mut cache = CallCache::new();
    cache.store(5, 0, 21);
    assert_eq!(cache.lookup(5, 1), None);
    let v = _run_per_digit(30, 3, &mut cache);
    assert_eq!(v, Some(6343405));
    assert_eq!(cache.lookup(30, 3), v);
    assert_eq!(cache.lookup(5, 0), Some(21));
    assert_eq!(cache.lookup(31, 3), None);
    assert_eq!(cache.lookup(30, 4), None);
    assert_eq!(_run_per_digit(30, 3, &mut cache), v);
}
