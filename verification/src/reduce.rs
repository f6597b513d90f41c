//! Folding the table of one partition into the table of the whole text.

use vstd::prelude::*;
use crate::chunk::tally;
use crate::error::ParseError;
use crate::keys::lex_less;
use crate::records::record_of;
use crate::station::Summary;
use crate::table::{
    absorb_into, lemma_to_map_insert, lemma_to_map_row, ordered, record_into, row_of, summary_at,
    to_map, StationTable,
};

verus! {

/// The mapping that holds every key of `a` and of `b`: under a key of both
/// the two aggregates merged, under a key of one that one's aggregate.
pub open spec fn merge_maps(a: Map<Seq<u8>, Summary>, b: Map<Seq<u8>, Summary>) -> Map<
    Seq<u8>,
    Summary,
> {
    Map::new(
        |key: Seq<u8>| a.contains_key(key) || b.contains_key(key),
        |key: Seq<u8>|
            if a.contains_key(key) && b.contains_key(key) {
                a[key].merge(b[key])
            } else if a.contains_key(key) {
                a[key]
            } else {
                b[key]
            },
    )
}

/// The outcome of two runs of records, one after the other: the first error
/// if there is one, the two mappings merged otherwise.
pub open spec fn combine(
    first: Result<Map<Seq<u8>, Summary>, ParseError>,
    second: Result<Map<Seq<u8>, Summary>, ParseError>,
) -> Result<Map<Seq<u8>, Summary>, ParseError> {
    match first {
        Err(error) => Err(error),
        Ok(a) => match second {
            Err(error) => Err(error),
            Ok(b) => Ok(merge_maps(a, b)),
        },
    }
}

/// Merging with a mapping that took one more value is taking that value
/// after the merge.
pub proof fn lemma_merge_then_record(
    a: Map<Seq<u8>, Summary>,
    b: Map<Seq<u8>, Summary>,
    key: Seq<u8>,
    value: int,
)
    requires
        value <= i64::MAX,
        value >= i64::MIN,
    ensures
        merge_maps(a, record_into(b, key, value)) == record_into(merge_maps(a, b), key, value),
{
    let left = merge_maps(a, record_into(b, key, value));
    let right = record_into(merge_maps(a, b), key, value);
    assert forall|k: Seq<u8>| left.contains_key(k) implies #[trigger] left[k] == right[k] by {
        if k == key {
            assert(record_into(b, key, value)[key] == summary_at(b, key).update(value));
        } else {
            assert(record_into(b, key, value).contains_key(k) == b.contains_key(k));
        }
    }
    assert(left =~= right);
}

/// Tallying two runs of records one after the other is tallying each and
/// merging the results; the first record that cannot be read decides the
/// error either way.
pub proof fn lemma_tally_concat(first: Seq<Seq<u8>>, second: Seq<Seq<u8>>)
    ensures
        tally(first + second) == combine(tally(first), tally(second)),
    decreases second.len(),
{
    if second.len() == 0 {
        assert(first + second =~= first);
        if let Ok(a) = tally(first) {
            assert(merge_maps(a, Map::<Seq<u8>, Summary>::empty()) =~= a);
        }
    } else {
        let front = second.drop_last();
        lemma_tally_concat(first, front);
        assert((first + second).drop_last() =~= first + front);
        assert((first + second).last() == second.last());
        if let Ok(a) = tally(first) {
            if let Ok(b) = tally(front) {
                if let Ok(pair) = record_of(second.last()) {
                    lemma_merge_then_record(a, b, pair.0, pair.1);
                }
            }
        }
    }
}

/// Merging mappings does not depend on which of the two comes first.
pub proof fn lemma_merge_maps_commutative(a: Map<Seq<u8>, Summary>, b: Map<Seq<u8>, Summary>)
    ensures
        merge_maps(a, b) == merge_maps(b, a),
{
    assert(merge_maps(a, b) =~= merge_maps(b, a));
}

/// Merging three mappings does not depend on which two are merged first.
pub proof fn lemma_merge_maps_associative(
    a: Map<Seq<u8>, Summary>,
    b: Map<Seq<u8>, Summary>,
    c: Map<Seq<u8>, Summary>,
)
    ensures
        merge_maps(merge_maps(a, b), c) == merge_maps(a, merge_maps(b, c)),
{
    assert(merge_maps(merge_maps(a, b), c) =~= merge_maps(a, merge_maps(b, c)));
}

/// No aggregate of `a` merged with the aggregate that `b` holds under the same
/// key would count more values than a `u64` can hold.
pub open spec fn counts_fit(a: Map<Seq<u8>, Summary>, b: Map<Seq<u8>, Summary>) -> bool {
    forall|key: Seq<u8>|
        a.contains_key(key) && b.contains_key(key) ==> a[key].count + b[key].count <= u64::MAX
}

/// Tells whether `local` can be folded into `global` without a count that
/// overflows.
pub fn can_fold(global: &StationTable, local: &StationTable) -> (fits: bool)
    requires
        global.wf(),
        local.wf(),
    ensures
        fits == counts_fit(global@, local@),
{
    let ghost rows = local.rows();
    let n: usize = local.len();
    let mut i: usize = 0;
    while i < n
        invariant
            i <= n,
            n == rows.len(),
            rows == local.rows(),
            local.wf(),
            global.wf(),
            forall|k: int|
                0 <= k < i && global@.contains_key((#[trigger] rows[k]).0) ==> global@[rows[k].0].count
                    + rows[k].1.count <= u64::MAX,
        decreases n - i,
    {
        let station = local.station_at(i);
        proof {
            lemma_to_map_row(rows, i as int);
        }
        match global.get(local.key_at(i)) {
            Some(held) => {
                if held.count() > u64::MAX - station.count() {
                    return false;
                }
            },
            None => {},
        }
        i = i + 1;
    }
    proof {
        assert forall|key: Seq<u8>|
            global@.contains_key(key) && local@.contains_key(key) implies global@[key].count
            + local@[key].count <= u64::MAX by {
            let k = row_of(rows, key);
            assert(rows[k].0 == key);
            lemma_to_map_row(rows, k);
        }
    }
    true
}

/// Folds every aggregate of `local` into `global`: a key that `global` lacks
/// is added with a copy of its aggregate, the aggregate of a key that it has
/// is merged.
pub fn fold_into(global: &mut StationTable, local: &StationTable)
    requires
        old(global).wf(),
        local.wf(),
        counts_fit(old(global)@, local@),
    ensures
        final(global).wf(),
        final(global)@ == merge_maps(old(global)@, local@),
{
    let ghost start = global@;
    let ghost rows = local.rows();
    let n: usize = local.len();
    let mut i: usize = 0;
    proof {
        assert(to_map(rows.take(0)) =~= Map::<Seq<u8>, Summary>::empty());
        assert(merge_maps(start, Map::<Seq<u8>, Summary>::empty()) =~= start);
    }
    while i < n
        invariant
            i <= n,
            n == rows.len(),
            rows == local.rows(),
            local.wf(),
            start == old(global)@,
            global.wf(),
            global@ == merge_maps(start, to_map(rows.take(i as int))),
            counts_fit(start, local@),
        decreases n - i,
    {
        let key = local.key_at(i);
        let station = local.station_at(i);
        proof {
            let done = rows.take(i as int);
            assert(ordered(done)) by {
                assert forall|a: int, b: int|
                    #![trigger done[a], done[b]]
                    0 <= a < b < done.len() implies lex_less(done[a].0, done[b].0) by {
                    assert(done[a] == rows[a] && done[b] == rows[b]);
                }
            }
            assert forall|a: int| 0 <= a < i implies lex_less(
                (#[trigger] done[a]).0,
                key@,
            ) by {
                assert(done[a] == rows[a]);
            }
            lemma_to_map_insert(done, i as int, key@, station@);
            assert(done.insert(i as int, (key@, station@)) =~= rows.take(i + 1));
            lemma_to_map_row(rows, i as int);
            assert(rows[i as int].1.wf());
            assert(!to_map(done).contains_key(key@));
        }
        global.absorb(key, station);
        proof {
            let before = merge_maps(start, to_map(rows.take(i as int)));
            let after = merge_maps(start, to_map(rows.take(i + 1)));
            assert(absorb_into(before, key@, station@) =~= after);
        }
        i = i + 1;
    }
    proof {
        assert(rows.take(n as int) =~= rows);
    }
}

} // verus!
