use station_stats::chunk::process_chunk;
use station_stats::error::ParseError;
use station_stats::format::{format_station, format_table};
use station_stats::pipeline::{aggregate, summarize};
use station_stats::station::Station;
use station_stats::table::StationTable;

/// Units in a tenth.
const T: i64 = 100_000_000;

fn text(data: &[u8], parts: usize) -> String {
    String::from_utf8(summarize(data, parts).unwrap()).unwrap()
}

#[test]
fn empty_table_is_written_as_braces() {
    assert_eq!(format_table(&StationTable::new()), b"{}".to_vec());
}

#[test]
fn empty_text_is_written_as_braces() {
    assert_eq!(text(b"", 1), "{}");
    assert_eq!(text(b"", 16), "{}");
}

#[test]
fn station_is_written_as_min_mean_max() {
    let mut station = Station::new();
    station.update(100 * T);
    station.update(300 * T);
    assert_eq!(format_station(&station), b"10.0/20.0/30.0".to_vec());
    station.update(-1000 * T);
    assert_eq!(format_station(&station), b"-100.0/-20.0/30.0".to_vec());
}

#[test]
fn entries_are_separated_by_comma_and_space() {
    let table = process_chunk(b"b;2.0\na;1.0\nc;3.0\n").unwrap();
    assert_eq!(
        String::from_utf8(format_table(&table)).unwrap(),
        "{a=1.0/1.0/1.0, b=2.0/2.0/2.0, c=3.0/3.0/3.0}"
    );
    let one = process_chunk(b"b;2.0\n").unwrap();
    assert_eq!(String::from_utf8(format_table(&one)).unwrap(), "{b=2.0/2.0/2.0}");
}

#[test]
fn three_records_two_stations() {
    let data = b"StationA;10.0\nStationB;20.0\nStationA;30.0\n";
    let expected = "{StationA=10.0/20.0/30.0, StationB=20.0/20.0/20.0}";
    for parts in [1, 2, 3, 4, 7, 42, 1000] {
        assert_eq!(text(data, parts), expected);
    }
}

#[test]
fn single_record_without_terminator() {
    assert_eq!(text(b"X;5.5", 1), "{X=5.5/5.5/5.5}");
    assert_eq!(text(b"X;5.5", 3), "{X=5.5/5.5/5.5}");
}

#[test]
fn text_smaller_than_part_count() {
    let data = b"b;1.5\na;2.5\nb;3.5";
    let single = aggregate(data, 1).unwrap();
    let many = aggregate(data, 1000).unwrap();
    assert_eq!(many.len(), single.len());
    for i in 0..single.len() {
        assert_eq!(many.key_at(i), single.key_at(i));
        assert_eq!(many.station_at(i).min(), single.station_at(i).min());
        assert_eq!(many.station_at(i).max(), single.station_at(i).max());
        assert_eq!(many.station_at(i).sum(), single.station_at(i).sum());
        assert_eq!(many.station_at(i).count(), single.station_at(i).count());
    }
    assert_eq!(text(data, 1000), text(data, 1));
    assert_eq!(text(data, 1), "{a=2.5/2.5/2.5, b=1.5/2.5/3.5}");
}

#[test]
fn negative_values() {
    assert_eq!(text(b"Y;-3.2\nY;1.0\n", 1), "{Y=-3.2/-1.1/1.0}");
    assert_eq!(text(b"Y;-3.2\nY;1.0\n", 2), "{Y=-3.2/-1.1/1.0}");
}

#[test]
fn keys_are_sorted_bytewise() {
    let data = b"b;1\nB;1\na;1\n;1\nab;1\nZ;1\n";
    assert_eq!(
        text(data, 3),
        "{=1.0/1.0/1.0, B=1.0/1.0/1.0, Z=1.0/1.0/1.0, a=1.0/1.0/1.0, ab=1.0/1.0/1.0, b=1.0/1.0/1.0}"
    );
}

#[test]
fn mean_is_rounded_to_one_decimal() {
    assert_eq!(text(b"k;0.1\nk;0.1\nk;0.2\n", 1), "{k=0.1/0.1/0.2}");
    assert_eq!(text(b"k;0.1\nk;0.2\nk;0.2\n", 1), "{k=0.1/0.2/0.2}");
    // ties go to the even tenth
    assert_eq!(text(b"k;0.1\nk;0.2\n", 1), "{k=0.1/0.2/0.2}");
    assert_eq!(text(b"k;0.2\nk;0.3\n", 1), "{k=0.2/0.2/0.3}");
    assert_eq!(text(b"k;-0.1\nk;0.0\n", 1), "{k=-0.1/0.0/0.0}");
}

#[test]
fn result_does_not_depend_on_part_count() {
    let mut data = Vec::new();
    for i in 0..200 {
        let line = format!("station{};{}.{}\n", i % 17, (i * 37) % 90 - 45, i % 10);
        data.extend_from_slice(line.as_bytes());
    }
    let expected = text(&data, 1);
    for parts in 2..=40 {
        assert_eq!(text(&data, parts), expected);
    }
    assert_eq!(text(&data, data.len() + 5), expected);
}

#[test]
fn errors_do_not_depend_on_part_count() {
    let data = b"a;1.0\nb;2.0\nc;x\nd\ne;5.0\n";
    for parts in 1..=30 {
        assert_eq!(summarize(data, parts), Err(ParseError::MalformedValue));
        assert!(matches!(aggregate(data, parts), Err(ParseError::MalformedValue)));
    }
    let blank = b"a;1.0\n\nb;2.0\n";
    for parts in 1..=20 {
        assert_eq!(summarize(blank, parts), Err(ParseError::MissingSeparator));
    }
}

#[test]
fn keys_with_separator_keep_it() {
    assert_eq!(text(b"a;b;1.5\n", 1), "{a;b=1.5/1.5/1.5}");
}

#[test]
fn values_with_more_decimal_places_are_read() {
    assert_eq!(text(b"A;1.25\n", 1), "{A=1.2/1.2/1.2}");
    assert_eq!(text(b"A;1.25\n", 5), "{A=1.2/1.2/1.2}");
    assert_eq!(text(b"A;1.26\n", 1), "{A=1.3/1.3/1.3}");
    assert_eq!(text(b"A;1.24999\n", 1), "{A=1.2/1.2/1.2}");
    assert_eq!(text(b"A;-1.26\n", 1), "{A=-1.3/-1.3/-1.3}");
    assert_eq!(text(b"A;10.05\nA;10.15\n", 1), "{A=10.0/10.1/10.2}");
}

#[test]
fn each_statistic_is_rounded_from_the_exact_value() {
    // minimum 0.04, maximum 0.06, mean 0.05: the mean is a tie and goes to the even tenth
    assert_eq!(text(b"k;0.04\nk;0.06\n", 1), "{k=0.0/0.0/0.1}");
    // mean 0.149999999 lies below the tie
    assert_eq!(text(b"k;0.149999998\nk;0.15\n", 1), "{k=0.1/0.1/0.2}");
    // mean 0.150000001 lies above it
    assert_eq!(text(b"k;0.150000002\nk;0.15\n", 2), "{k=0.2/0.2/0.2}");
    // the sum keeps what rounding each value would lose: 3 x 0.04 = 0.12, mean 0.04
    assert_eq!(text(b"k;0.04\nk;0.04\nk;0.04\n", 1), "{k=0.0/0.0/0.0}");
    assert_eq!(text(b"k;0.04\nk;0.04\nk;0.07\n", 1), "{k=0.0/0.0/0.1}");
    assert_eq!(text(b"k;0.04\nk;0.04\nk;0.08\n", 3), "{k=0.0/0.1/0.1}");
}

#[test]
fn values_too_fine_or_too_large_fail() {
    assert_eq!(summarize(b"A;0.0000000001\n", 1), Err(ParseError::UnsupportedValue));
    assert_eq!(summarize(b"A;9223372037\n", 3), Err(ParseError::UnsupportedValue));
}
