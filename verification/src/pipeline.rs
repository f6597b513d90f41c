//! The whole run: plan the partitions, read each, fold the tables together,
//! write the result out.

use vstd::prelude::*;
use vstd::slice::slice_subrange;
use crate::chunk::{process_chunk, tally};
use crate::error::ParseError;
use crate::format::{format_table, render_map};
use crate::planner::{plan_partitions, positions, valid_boundaries};
use crate::records::{lemma_records_concat, records};
use crate::reduce::{combine, fold_into, lemma_tally_concat};
use crate::scan::TERMINATOR;
use crate::station::Summary;
use crate::table::{counts_within, StationTable};

verus! {

/// The outcome of reading `data` partition by partition, in the order of the
/// boundaries, and merging each partition's mapping into the result so far.
pub open spec fn tally_partitions(data: Seq<u8>, offsets: Seq<int>) -> Result<
    Map<Seq<u8>, Summary>,
    ParseError,
>
    decreases offsets.len(),
{
    if offsets.len() < 2 {
        Ok(Map::empty())
    } else {
        combine(
            tally_partitions(data, offsets.drop_last()),
            tally(records(data.subrange(offsets[offsets.len() - 2], offsets[offsets.len() - 1]))),
        )
    }
}

/// Partitions that follow one another from the start of the text, each cut
/// just behind a terminator, give the outcome of reading the text up to the
/// last boundary in one piece.
pub proof fn lemma_partitions_tally_prefix(data: Seq<u8>, offsets: Seq<int>)
    requires
        offsets.len() >= 1,
        offsets[0] == 0,
        offsets.last() <= data.len(),
        forall|i: int, j: int| 0 <= i < j < offsets.len() ==> offsets[i] < offsets[j],
        forall|i: int|
            0 < i < offsets.len() - 1 ==> data[#[trigger] offsets[i] - 1] == TERMINATOR,
    ensures
        tally_partitions(data, offsets) == tally(records(data.take(offsets.last()))),
    decreases offsets.len(),
{
    let n = offsets.len() as int;
    if n < 2 {
        assert(data.take(0) =~= Seq::<u8>::empty());
    } else {
        let front = offsets.drop_last();
        assert(front.last() == offsets[n - 2]);
        assert(offsets[n - 2] < offsets[n - 1]);
        assert forall|i: int, j: int| 0 <= i < j < front.len() implies front[i] < front[j] by {
            assert(front[i] == offsets[i] && front[j] == offsets[j]);
        }
        assert forall|i: int| 0 < i < front.len() - 1 implies data[#[trigger] front[i] - 1]
            == TERMINATOR by {
            assert(front[i] == offsets[i]);
        }
        lemma_partitions_tally_prefix(data, front);
        let head = data.take(offsets[n - 2]);
        let tail = data.subrange(offsets[n - 2], offsets[n - 1]);
        assert(head + tail =~= data.take(offsets[n - 1]));
        if n - 2 > 0 {
            assert(offsets[0] < offsets[n - 2]);
            assert(head.last() == data[offsets[n - 2] - 1]);
        }
        lemma_records_concat(head, tail);
        lemma_tally_concat(records(head), records(tail));
    }
}

/// However a text is cut into partitions of whole records, reading it
/// partition by partition gives what reading it in one piece gives: the same
/// mapping, or the same error.
pub proof fn lemma_partitions_tally(data: Seq<u8>, offsets: Seq<int>)
    requires
        valid_boundaries(data, offsets),
    ensures
        tally_partitions(data, offsets) == tally(records(data)),
{
    lemma_partitions_tally_prefix(data, offsets);
    assert(data.take(data.len() as int) =~= data);
}

/// An error in the first partitions is the error of the whole run.
pub proof fn lemma_partitions_error_stays(data: Seq<u8>, offsets: Seq<int>, upto: int)
    requires
        1 <= upto <= offsets.len(),
        tally_partitions(data, offsets.take(upto)) is Err,
    ensures
        tally_partitions(data, offsets) == tally_partitions(data, offsets.take(upto)),
    decreases offsets.len() - upto,
{
    if upto == offsets.len() {
        assert(offsets.take(upto) =~= offsets);
    } else {
        assert(offsets.take(upto + 1).drop_last() =~= offsets.take(upto));
        lemma_partitions_error_stays(data, offsets, upto + 1);
    }
}

/// Reads `data` in at most `parts` partitions and folds their tables into one.
///
/// The result does not depend on `parts`: it is the table of all records of
/// `data`, or the error of the first record that cannot be read.
pub fn aggregate(data: &[u8], parts: usize) -> (result: Result<StationTable, ParseError>)
    requires
        parts > 0,
    ensures
        match tally(records(data@)) {
            Ok(map) => result matches Ok(table) && table@ == map && table.wf(),
            Err(error) => result matches Err(e) && e == error,
        },
{
    let offsets = plan_partitions(data, parts);
    let ghost cuts = positions(offsets@);
    let mut global = StationTable::new();
    let mut i: usize = 0;
    proof {
        lemma_partitions_tally(data@, cuts);
        assert(cuts.take(1).len() < 2);
    }
    while i + 1 < offsets.len()
        invariant
            cuts == positions(offsets@),
            valid_boundaries(data@, cuts),
            tally_partitions(data@, cuts) == tally(records(data@)),
            i < offsets.len(),
            tally_partitions(data@, cuts.take(i + 1)) == Ok::<Map<Seq<u8>, Summary>, ParseError>(
                global@,
            ),
            global.wf(),
            counts_within(global@, offsets@[i as int] as nat),
        decreases offsets.len() - i,
    {
        let from: usize = offsets[i];
        let to: usize = offsets[i + 1];
        proof {
            assert(cuts[i as int] == from && cuts[i + 1] == to);
            assert(cuts[i as int] < cuts[i + 1]);
            assert(cuts[i + 1] <= cuts[cuts.len() - 1]);
            let next = cuts.take(i + 2);
            assert(next.drop_last() =~= cuts.take(i + 1));
            assert(next[next.len() - 2] == from && next[next.len() - 1] == to);
        }
        let chunk = slice_subrange(data, from, to);
        match process_chunk(chunk) {
            Err(error) => {
                proof {
                    let next = cuts.take(i + 2);
                    assert(tally_partitions(data@, next) == combine(
                        tally_partitions(data@, next.drop_last()),
                        tally(records(chunk@)),
                    ));
                    lemma_partitions_error_stays(data@, cuts, i + 2);
                }
                return Err(error);
            },
            Ok(local) => {
                let ghost before = global@;
                fold_into(&mut global, &local);
                proof {
                    assert forall|key: Seq<u8>| #[trigger]
                        global@.contains_key(key) implies global@[key].count <= to by {
                        if before.contains_key(key) {
                            assert(before[key].count <= from);
                        }
                        if local@.contains_key(key) {
                            assert(local@[key].count <= to - from);
                        }
                    }
                }
            },
        }
        i = i + 1;
    }
    proof {
        assert(cuts.take(i + 1) =~= cuts);
    }
    Ok(global)
}

/// Reads `data` in at most `parts` partitions and writes the statistics of
/// every key out, keys in ascending order.
///
/// The result does not depend on `parts`.
pub fn summarize(data: &[u8], parts: usize) -> (result: Result<Vec<u8>, ParseError>)
    requires
        parts > 0,
    ensures
        match tally(records(data@)) {
            Ok(map) => result matches Ok(text) && text@ == render_map(map),
            Err(error) => result matches Err(e) && e == error,
        },
{
    match aggregate(data, parts) {
        Ok(table) => Ok(format_table(&table)),
        Err(error) => Err(error),
    }
}

} // verus!
