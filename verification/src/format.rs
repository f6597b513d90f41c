//! Writing a table out: `{key=min/mean/max, key=min/mean/max}`, keys in
//! ascending order, every statistic rounded to one decimal place.

use vstd::prelude::*;
use crate::decimal::{render_tenths, write_tenths};
use crate::station::{round_to_tenths, tenths_of, Station, Summary};
use crate::table::{lemma_ordered_rows_unique, lemma_to_map_row, ordered, to_map, StationTable};

verus! {

pub const OPEN: u8 = 123;

pub const CLOSE: u8 = 125;

pub const EQUALS: u8 = 61;

pub const SLASH: u8 = 47;

pub const COMMA: u8 = 44;

pub const SPACE: u8 = 32;

/// The statistics of one aggregate: minimum, mean and maximum, each rounded
/// to one decimal place.
pub open spec fn render_station(summary: Summary) -> Seq<u8> {
    render_tenths(tenths_of(summary.min)) + seq![SLASH] + render_tenths(summary.mean_tenths())
        + seq![SLASH] + render_tenths(tenths_of(summary.max))
}

/// One entry: the key, an equals sign, the statistics.
pub open spec fn render_row(row: (Seq<u8>, Summary)) -> Seq<u8> {
    row.0 + seq![EQUALS] + render_station(row.1)
}

/// The entries of `rows` in their order, a comma and a space between one
/// and the next.
pub open spec fn render_list(rows: Seq<(Seq<u8>, Summary)>) -> Seq<u8>
    decreases rows.len(),
{
    if rows.len() == 0 {
        Seq::empty()
    } else if rows.len() == 1 {
        render_row(rows[0])
    } else {
        render_list(rows.drop_last()) + seq![COMMA, SPACE] + render_row(rows.last())
    }
}

/// The entries of `rows` between braces.
pub open spec fn render_rows(rows: Seq<(Seq<u8>, Summary)>) -> Seq<u8> {
    seq![OPEN] + render_list(rows) + seq![CLOSE]
}

/// The rows of `map` in ascending key order.
pub open spec fn sorted_rows(map: Map<Seq<u8>, Summary>) -> Seq<(Seq<u8>, Summary)> {
    choose|rows: Seq<(Seq<u8>, Summary)>| ordered(rows) && to_map(rows) == map
}

/// The text that stands for `map`.
pub open spec fn render_map(map: Map<Seq<u8>, Summary>) -> Seq<u8> {
    render_rows(sorted_rows(map))
}

/// Rows in ascending key order are the sorted rows of their mapping, whichever
/// way they were put together.
pub proof fn lemma_sorted_rows(rows: Seq<(Seq<u8>, Summary)>)
    requires
        ordered(rows),
    ensures
        sorted_rows(to_map(rows)) == rows,
{
    lemma_ordered_rows_unique(sorted_rows(to_map(rows)), rows);
}

/// A mapping without keys is written as a pair of braces.
pub proof fn lemma_render_empty()
    ensures
        render_map(Map::<Seq<u8>, Summary>::empty()) == seq![OPEN, CLOSE],
{
    let none = Seq::<(Seq<u8>, Summary)>::empty();
    assert(to_map(none) =~= Map::<Seq<u8>, Summary>::empty());
    lemma_sorted_rows(none);
    assert(render_rows(none) =~= seq![OPEN, CLOSE]);
}

/// Appends `bytes`.
pub fn write_bytes(bytes: &[u8], out: &mut Vec<u8>)
    ensures
        final(out)@ == old(out)@ + bytes@,
{
    let mut i: usize = 0;
    while i < bytes.len()
        invariant
            i <= bytes.len(),
            out@ == old(out)@ + bytes@.take(i as int),
        decreases bytes.len() - i,
    {
        out.push(bytes[i]);
        proof {
            assert(bytes@.take(i + 1) =~= bytes@.take(i as int).push(bytes@[i as int]));
        }
        i = i + 1;
    }
    proof {
        assert(bytes@.take(i as int) =~= bytes@);
    }
}

/// Appends the statistics of `station`: minimum, mean and maximum, parted by
/// slashes.
pub fn write_station(station: &Station, out: &mut Vec<u8>)
    requires
        station.wf(),
        station@.count > 0,
    ensures
        final(out)@ == old(out)@ + render_station(station@),
{
    write_tenths(round_to_tenths(station.min()), out);
    out.push(SLASH);
    write_tenths(station.mean_tenths(), out);
    out.push(SLASH);
    write_tenths(round_to_tenths(station.max()), out);
    proof {
        assert(out@ =~= old(out)@ + render_station(station@));
    }
}

/// The statistics of `station` as text: minimum, mean and maximum, parted by
/// slashes.
pub fn format_station(station: &Station) -> (text: Vec<u8>)
    requires
        station.wf(),
        station@.count > 0,
    ensures
        text@ == render_station(station@),
{
    let mut text: Vec<u8> = Vec::new();
    write_station(station, &mut text);
    proof {
        assert(Seq::<u8>::empty() + render_station(station@) =~= render_station(station@));
    }
    text
}

/// Writes the table out, keys in ascending order.
pub fn format_table(table: &StationTable) -> (text: Vec<u8>)
    requires
        table.wf(),
    ensures
        text@ == render_map(table@),
        text@ == render_rows(table.rows()),
        table@ == Map::<Seq<u8>, Summary>::empty() ==> text@ == seq![OPEN, CLOSE],
{
    let ghost rows = table.rows();
    let n: usize = table.len();
    let mut text: Vec<u8> = Vec::new();
    text.push(OPEN);
    let mut i: usize = 0;
    proof {
        assert(rows.take(0) =~= Seq::<(Seq<u8>, Summary)>::empty());
        assert(text@ =~= seq![OPEN] + render_list(rows.take(0)));
    }
    while i < n
        invariant
            i <= n,
            n == rows.len(),
            rows == table.rows(),
            table.wf(),
            text@ == seq![OPEN] + render_list(rows.take(i as int)),
        decreases n - i,
    {
        let ghost before = text@;
        if i > 0 {
            text.push(COMMA);
            text.push(SPACE);
        }
        let station = table.station_at(i);
        assert(rows[i as int].1.wf());
        write_bytes(table.key_at(i), &mut text);
        text.push(EQUALS);
        write_station(&station, &mut text);
        proof {
            let done = rows.take(i as int);
            let more = rows.take(i + 1);
            assert(more.drop_last() =~= done);
            assert(more.last() == rows[i as int]);
            if i == 0 {
                assert(done.len() == 0);
                assert(text@ =~= seq![OPEN] + render_row(rows[0]));
            } else {
                assert(text@ =~= before + seq![COMMA, SPACE] + render_row(rows[i as int]));
                assert(text@ =~= seq![OPEN] + (render_list(done) + seq![COMMA, SPACE] + render_row(
                    rows[i as int],
                )));
            }
        }
        i = i + 1;
    }
    text.push(CLOSE);
    proof {
        assert(rows.take(n as int) =~= rows);
        lemma_sorted_rows(rows);
        if table@ == Map::<Seq<u8>, Summary>::empty() {
            if rows.len() > 0 {
                lemma_to_map_row(rows, 0);
            }
            assert(render_list(rows) =~= Seq::<u8>::empty());
            assert(text@ =~= seq![OPEN, CLOSE]);
        }
    }
    text
}

} // verus!
