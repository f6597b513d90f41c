//! Reading one partition: every record of a byte range is folded into a
//! table of its own.

use vstd::prelude::*;
use vstd::slice::slice_subrange;
use crate::error::ParseError;
use crate::records::{parse_record, record_of, records, records_from};
use crate::scan::{scan_to, TERMINATOR};
use crate::station::Summary;
use crate::table::{counts_within, record_into, summary_at, StationTable};

verus! {

/// The mapping that folding `records` in, first to last, gives; or the error
/// of the first record that cannot be read.
pub open spec fn tally(records: Seq<Seq<u8>>) -> Result<Map<Seq<u8>, Summary>, ParseError>
    decreases records.len(),
{
    if records.len() == 0 {
        Ok(Map::empty())
    } else {
        match tally(records.drop_last()) {
            Err(error) => Err(error),
            Ok(map) => match record_of(records.last()) {
                Err(error) => Err(error),
                Ok(pair) => Ok(record_into(map, pair.0, pair.1)),
            },
        }
    }
}

/// Once a record cannot be read, no later record changes the outcome.
pub proof fn lemma_tally_error_stays(done: Seq<Seq<u8>>, rest: Seq<Seq<u8>>)
    requires
        tally(done) is Err,
    ensures
        tally(done + rest) == tally(done),
    decreases rest.len(),
{
    if rest.len() == 0 {
        assert(done + rest =~= done);
    } else {
        lemma_tally_error_stays(done, rest.drop_last());
        assert((done + rest).drop_last() =~= done + rest.drop_last());
    }
}

/// The values that `records` hold for `key`, in the order of the records.
pub open spec fn values_for(records: Seq<Seq<u8>>, key: Seq<u8>) -> Seq<i64>
    decreases records.len(),
{
    if records.len() == 0 {
        Seq::empty()
    } else {
        let front = values_for(records.drop_last(), key);
        match record_of(records.last()) {
            Ok(pair) => if pair.0 == key {
                front.push(pair.1 as i64)
            } else {
                front
            },
            Err(_) => front,
        }
    }
}

/// Where all records can be read, the mapping holds the keys that occur, and
/// under each key the aggregate of the values recorded for it.
pub proof fn lemma_tally_by_key(records: Seq<Seq<u8>>, key: Seq<u8>)
    ensures
        tally(records) matches Ok(map) ==> {
            &&& map.contains_key(key) <==> values_for(records, key).len() > 0
            &&& summary_at(map, key) == Summary::of(values_for(records, key))
        },
    decreases records.len(),
{
    if records.len() > 0 {
        lemma_tally_by_key(records.drop_last(), key);
        if let Ok(map) = tally(records) {
            let front = values_for(records.drop_last(), key);
            let pair = record_of(records.last()).unwrap();
            if pair.0 == key {
                assert(front.push(pair.1 as i64).drop_last() =~= front);
            }
        }
    }
}

/// Reads the records of `data` and folds each into a table.
///
/// Fails with the error of the first record that has no separator or whose
/// value cannot be read.
pub fn process_chunk(data: &[u8]) -> (result: Result<StationTable, ParseError>)
    ensures
        match tally(records(data@)) {
            Ok(map) => result matches Ok(table) && table@ == map && table.wf() && counts_within(
                table@,
                data@.len(),
            ),
            Err(error) => result matches Err(e) && e == error,
        },
{
    let mut table = StationTable::new();
    let mut pos: usize = 0;
    let ghost mut done: Seq<Seq<u8>> = Seq::empty();
    proof {
        assert(done + records_from(data@, 0) =~= records(data@));
    }
    while pos < data.len()
        invariant
            pos <= data.len(),
            records(data@) == done + records_from(data@, pos as int),
            tally(done) == Ok::<Map<Seq<u8>, Summary>, ParseError>(table@),
            table.wf(),
            counts_within(table@, pos as nat),
        decreases data.len() - pos,
    {
        let end: usize = scan_to(data, pos, TERMINATOR);
        let record = slice_subrange(data, pos, end);
        let ghost rest = records_from(data@, end + 1);
        proof {
            assert(records_from(data@, pos as int) == seq![record@] + rest);
            assert(done + (seq![record@] + rest) =~= done.push(record@) + rest);
            assert(done.push(record@).drop_last() =~= done);
        }
        match parse_record(record) {
            Err(error) => {
                proof {
                    lemma_tally_error_stays(done.push(record@), rest);
                }
                return Err(error);
            },
            Ok((key, value)) => {
                let ghost before = table@;
                assert(summary_at(before, key@).count <= pos);
                table.record(key, value);
                proof {
                    assert forall|k: Seq<u8>| #[trigger]
                        table@.contains_key(k) implies table@[k].count <= pos + 1 by {
                        if k != key@ {
                            assert(before.contains_key(k));
                        }
                    }
                }
            },
        }
        proof {
            done = done.push(record@);
        }
        if end < data.len() {
            pos = end + 1;
        } else {
            proof {
                assert(rest =~= records_from(data@, end as int));
            }
            pos = end;
        }
    }
    proof {
        assert(done + records_from(data@, pos as int) =~= done);
    }
    Ok(table)
}

} // verus!
