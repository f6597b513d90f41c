use station_stats::station::{round_to_tenths, Station};

/// Units in a tenth.
const T: i64 = 100_000_000;

fn station_of(values: &[i64]) -> Station {
    let mut station = Station::new();
    for v in values {
        station.update(*v);
    }
    station
}

fn fields(station: &Station) -> (i64, i64, i128, u64) {
    (station.min(), station.max(), station.sum(), station.count())
}

#[test]
fn new_station_is_unset() {
    let s = Station::new();
    assert_eq!(s.count(), 0);
    assert_eq!(s.sum(), 0);
    assert_eq!(s.min(), i64::MAX);
    assert_eq!(s.max(), i64::MIN);
}

#[test]
fn default_station_is_new_station() {
    assert_eq!(fields(&Station::default()), fields(&Station::new()));
}

#[test]
fn update_widens_bounds_and_counts() {
    let mut s = Station::new();
    s.update(100);
    assert_eq!(fields(&s), (100, 100, 100, 1));
    s.update(-32);
    assert_eq!(fields(&s), (-32, 100, 68, 2));
    s.update(55);
    assert_eq!(fields(&s), (-32, 100, 123, 3));
}

#[test]
fn update_takes_extreme_values() {
    let mut s = Station::new();
    s.update(i64::MIN);
    s.update(i64::MAX);
    assert_eq!(fields(&s), (i64::MIN, i64::MAX, -1, 2));
    assert_eq!(s.mean(), 0);
}

#[test]
fn fold_order_does_not_matter() {
    let a = station_of(&[100, -32, 55, 7, 7, 300]);
    let b = station_of(&[300, 7, 55, 7, -32, 100]);
    let c = station_of(&[7, 300, -32, 100, 7, 55]);
    assert_eq!(fields(&a), (-32, 300, 437, 6));
    assert_eq!(fields(&a), fields(&b));
    assert_eq!(fields(&a), fields(&c));
}

#[test]
fn merge_combines_two_aggregates() {
    let mut a = station_of(&[100, 300]);
    let b = station_of(&[-50, 200, 10]);
    a.merge(b);
    assert_eq!(fields(&a), (-50, 300, 560, 5));
}

#[test]
fn merge_of_parts_is_fold_of_whole() {
    let whole = station_of(&[12, -7, 40, 40, 3, -100, 8]);
    let mut left = station_of(&[12, -7, 40]);
    let right = station_of(&[40, 3, -100, 8]);
    left.merge(right);
    assert_eq!(fields(&left), fields(&whole));
    let mut odd = station_of(&[-7, 40, -100]);
    let even = station_of(&[12, 40, 3, 8]);
    odd.merge(even);
    assert_eq!(fields(&odd), fields(&whole));
}

#[test]
fn merge_is_commutative_and_associative() {
    let a = station_of(&[1, 2, 3]);
    let b = station_of(&[-10, 20]);
    let c = station_of(&[7]);
    let mut ab = a;
    ab.merge(b);
    let mut ba = b;
    ba.merge(a);
    assert_eq!(fields(&ab), fields(&ba));
    let mut ab_c = ab;
    ab_c.merge(c);
    let mut bc = b;
    bc.merge(c);
    let mut a_bc = a;
    a_bc.merge(bc);
    assert_eq!(fields(&ab_c), fields(&a_bc));
    assert_eq!(fields(&ab_c), (-10, 20, 23, 6));
}

#[test]
fn merge_with_unset_changes_nothing() {
    let mut a = station_of(&[5, 9]);
    a.merge(Station::new());
    assert_eq!(fields(&a), (5, 9, 14, 2));
    let mut empty = Station::new();
    empty.merge(station_of(&[5, 9]));
    assert_eq!(fields(&empty), (5, 9, 14, 2));
}

#[test]
fn mean_is_exact_where_it_can_be() {
    assert_eq!(station_of(&[100, 300]).mean(), 200);
    assert_eq!(station_of(&[-32, 10]).mean(), -11);
    assert_eq!(station_of(&[55]).mean(), 55);
}

#[test]
fn mean_rounds_to_nearest() {
    assert_eq!(station_of(&[1, 1, 2]).mean(), 1);
    assert_eq!(station_of(&[1, 2, 2]).mean(), 2);
    assert_eq!(station_of(&[-1, -1, -2]).mean(), -1);
    assert_eq!(station_of(&[-1, -2, -2]).mean(), -2);
}

#[test]
fn mean_rounds_ties_to_even() {
    assert_eq!(station_of(&[0, 1]).mean(), 0);
    assert_eq!(station_of(&[1, 2]).mean(), 2);
    assert_eq!(station_of(&[2, 3]).mean(), 2);
    assert_eq!(station_of(&[3, 4]).mean(), 4);
    assert_eq!(station_of(&[0, -1]).mean(), 0);
    assert_eq!(station_of(&[-1, -2]).mean(), -2);
    assert_eq!(station_of(&[-2, -3]).mean(), -2);
}

#[test]
fn mean_lies_between_bounds() {
    let s = station_of(&[i64::MAX, i64::MAX, i64::MAX - 1]);
    assert!(s.min() <= s.mean() && s.mean() <= s.max());
    assert_eq!(s.mean(), i64::MAX);
    let t = station_of(&[i64::MIN, i64::MIN, i64::MIN + 1]);
    assert_eq!(t.mean(), i64::MIN);
}

#[test]
fn values_round_to_the_nearest_tenth() {
    assert_eq!(round_to_tenths(0), 0);
    assert_eq!(round_to_tenths(12 * T), 12);
    assert_eq!(round_to_tenths(-12 * T), -12);
    assert_eq!(round_to_tenths(12 * T + 49_999_999), 12);
    assert_eq!(round_to_tenths(12 * T + 50_000_001), 13);
    assert_eq!(round_to_tenths(-12 * T - 49_999_999), -12);
    assert_eq!(round_to_tenths(-12 * T - 50_000_001), -13);
}

#[test]
fn value_ties_round_to_even() {
    assert_eq!(round_to_tenths(12 * T + 50_000_000), 12);
    assert_eq!(round_to_tenths(13 * T + 50_000_000), 14);
    assert_eq!(round_to_tenths(-12 * T - 50_000_000), -12);
    assert_eq!(round_to_tenths(-13 * T - 50_000_000), -14);
    assert_eq!(round_to_tenths(50_000_000), 0);
    assert_eq!(round_to_tenths(-50_000_000), 0);
}

#[test]
fn rounding_covers_the_whole_range() {
    assert_eq!(round_to_tenths(i64::MAX), 92_233_720_369);
    assert_eq!(round_to_tenths(i64::MIN), -92_233_720_369);
}

#[test]
fn mean_in_tenths_is_rounded_once() {
    assert_eq!(station_of(&[100 * T, 300 * T]).mean_tenths(), 200);
    assert_eq!(station_of(&[-32 * T, 10 * T]).mean_tenths(), -11);
    // mean 1.5 tenths: a tie, to the even tenth
    assert_eq!(station_of(&[T, 2 * T]).mean_tenths(), 2);
    assert_eq!(station_of(&[2 * T, 3 * T]).mean_tenths(), 2);
    // one unit below and above the tie
    assert_eq!(station_of(&[T, 2 * T - 2]).mean_tenths(), 1);
    assert_eq!(station_of(&[2 * T, 3 * T + 2]).mean_tenths(), 3);
    // each value alone rounds to zero, their mean does not
    assert_eq!(station_of(&[40_000_000, 40_000_000, 80_000_000]).mean_tenths(), 1);
}

#[test]
fn mean_in_tenths_covers_the_whole_range() {
    assert_eq!(station_of(&[i64::MAX, i64::MAX]).mean_tenths(), 92_233_720_369);
    assert_eq!(station_of(&[i64::MIN, i64::MIN, i64::MIN]).mean_tenths(), -92_233_720_369);
    assert_eq!(station_of(&[i64::MIN, i64::MAX]).mean_tenths(), 0);
}
