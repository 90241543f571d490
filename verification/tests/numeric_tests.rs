use mcts::numeric::{isqrt, log2_floor};
use mcts::search::uct_value;

#[test]
fn log2_floor_values() {
    assert_eq!(log2_floor(1), 0);
    assert_eq!(log2_floor(2), 1);
    assert_eq!(log2_floor(3), 1);
    assert_eq!(log2_floor(10), 3);
    assert_eq!(log2_floor(1024), 10);
    assert_eq!(log2_floor(u64::MAX), 63);
}

#[test]
fn isqrt_values() {
    assert_eq!(isqrt(0), 0);
    assert_eq!(isqrt(1), 1);
    assert_eq!(isqrt(3), 1);
    assert_eq!(isqrt(4), 2);
    assert_eq!(isqrt(15), 3);
    assert_eq!(isqrt(16), 4);
    assert_eq!(isqrt(999999999999999999), 999999999);
}

#[test]
fn uct_value_exact() {
    // exploitation: 1/2 in millionths; exploration: sqrt(2 ln 4 / 2) with
    // ln 4 taken as 2 * 693147 micro-units
    assert_eq!(uct_value(1, 2, 4), 1677409);
    // a fresh child under a parent with two visits
    assert_eq!(uct_value(0, 1, 2), 1177409);
    // a pure winner still carries the exploration term
    assert_eq!(uct_value(3, 3, 8), 2177409);
}

#[test]
fn uct_value_prefers_less_visited_on_equal_rate() {
    // equal win rates: the child with fewer visits scores higher
    let rarely = uct_value(1, 2, 100);
    let often = uct_value(25, 50, 100);
    assert!(rarely > often);
}
