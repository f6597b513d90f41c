use station_stats::station::Station;
use station_stats::table::StationTable;

fn keys_of(table: &StationTable) -> Vec<Vec<u8>> {
    let mut keys = Vec::new();
    for i in 0..table.len() {
        keys.push(table.key_at(i).to_vec());
    }
    keys
}

fn fields(station: &Station) -> (i64, i64, i128, u64) {
    (station.min(), station.max(), station.sum(), station.count())
}

#[test]
fn new_table_is_empty() {
    let table = StationTable::new();
    assert_eq!(table.len(), 0);
    assert!(table.is_empty());
    assert!(table.get(b"any").is_none());
}

#[test]
fn record_starts_an_aggregate_for_a_new_key() {
    let mut table = StationTable::new();
    table.record(b"Oslo", 15);
    assert_eq!(table.len(), 1);
    assert!(!table.is_empty());
    let station = table.get(b"Oslo").unwrap();
    assert_eq!(fields(&station), (15, 15, 15, 1));
    assert!(table.get(b"Osl").is_none());
    assert!(table.get(b"Oslo ").is_none());
}

#[test]
fn record_updates_the_aggregate_of_a_known_key() {
    let mut table = StationTable::new();
    table.record(b"Oslo", 15);
    table.record(b"Bergen", 80);
    table.record(b"Oslo", -40);
    assert_eq!(table.len(), 2);
    assert_eq!(fields(&table.get(b"Oslo").unwrap()), (-40, 15, -25, 2));
    assert_eq!(fields(&table.get(b"Bergen").unwrap()), (80, 80, 80, 1));
}

#[test]
fn rows_come_in_ascending_key_order() {
    let mut table = StationTable::new();
    for key in [&b"delta"[..], b"alpha", b"charlie", b"bravo", b"alpha", b"echo", b"", b"alph"] {
        table.record(key, 1);
    }
    let expected: Vec<Vec<u8>> = [&b""[..], b"alph", b"alpha", b"bravo", b"charlie", b"delta", b"echo"]
        .iter()
        .map(|k| k.to_vec())
        .collect();
    assert_eq!(keys_of(&table), expected);
    assert_eq!(table.station_at(2).count(), 2);
    assert_eq!(table.station_at(0).count(), 1);
}

#[test]
fn order_does_not_depend_on_insertion_order() {
    let keys: [&[u8]; 5] = [b"m", b"a", b"z", b"k", b"b"];
    let mut forward = StationTable::new();
    for key in keys {
        forward.record(key, 3);
    }
    let mut backward = StationTable::new();
    for key in keys.iter().rev() {
        backward.record(key, 3);
    }
    assert_eq!(keys_of(&forward), keys_of(&backward));
}

#[test]
fn absorb_stores_a_copy_under_a_new_key() {
    let mut station = Station::new();
    station.update(10);
    station.update(30);
    let mut table = StationTable::new();
    table.absorb(b"X", station);
    assert_eq!(fields(&table.get(b"X").unwrap()), (10, 30, 40, 2));
}

#[test]
fn absorb_merges_under_a_known_key() {
    let mut station = Station::new();
    station.update(10);
    station.update(30);
    let mut table = StationTable::new();
    table.record(b"X", -5);
    table.record(b"Y", 1);
    table.absorb(b"X", station);
    assert_eq!(table.len(), 2);
    assert_eq!(fields(&table.get(b"X").unwrap()), (-5, 30, 35, 3));
    assert_eq!(fields(&table.get(b"Y").unwrap()), (1, 1, 1, 1));
}

#[test]
fn keys_may_hold_any_byte() {
    let mut table = StationTable::new();
    table.record(&[0xff, 0x00], 1);
    table.record(&[0x00], 2);
    table.record(b"a;b", 3);
    assert_eq!(keys_of(&table), vec![vec![0x00], b"a;b".to_vec(), vec![0xff, 0x00]]);
}
