use station_stats::keys::{compare_keys, KeyOrder};

#[test]
fn equal_keys_are_the_same() {
    assert_eq!(compare_keys(b"", b""), KeyOrder::Same);
    assert_eq!(compare_keys(b"Oslo", b"Oslo"), KeyOrder::Same);
}

#[test]
fn first_difference_decides() {
    assert_eq!(compare_keys(b"StationA", b"StationB"), KeyOrder::Before);
    assert_eq!(compare_keys(b"StationB", b"StationA"), KeyOrder::After);
    assert_eq!(compare_keys(b"abd", b"abcz"), KeyOrder::After);
    assert_eq!(compare_keys(b"Z", b"a"), KeyOrder::Before);
}

#[test]
fn prefix_comes_first() {
    assert_eq!(compare_keys(b"", b"a"), KeyOrder::Before);
    assert_eq!(compare_keys(b"Station", b"StationA"), KeyOrder::Before);
    assert_eq!(compare_keys(b"StationA", b"Station"), KeyOrder::After);
}

#[test]
fn bytes_compare_unsigned() {
    assert_eq!(compare_keys(&[0x7f], &[0x80]), KeyOrder::Before);
    assert_eq!(compare_keys(&[0xff], &[0x00, 0xff]), KeyOrder::After);
}

#[test]
fn order_agrees_with_slices() {
    let keys: [&[u8]; 6] = [b"", b"a", b"ab", b"b", b"B", &[0xc3, 0xa9]];
    for a in keys {
        for b in keys {
            let expected = if a < b {
                KeyOrder::Before
            } else if a == b {
                KeyOrder::Same
            } else {
                KeyOrder::After
            };
            assert_eq!(compare_keys(a, b), expected);
        }
    }
}
