//! A mapping from keys to running aggregates, kept in ascending key order.
//!
//! The mapping is a vector of rows whose keys strictly increase, so no key
//! occurs twice and a walk over the rows visits the keys in order.

use vstd::prelude::*;
use vstd::slice::slice_to_vec;
use crate::keys::{
    compare_keys, lemma_lex_asymmetric, lemma_lex_irreflexive, lemma_lex_transitive, lex_less,
    KeyOrder,
};
use crate::station::{Station, Summary};

verus! {

/// The keys of `rows` strictly increase.
pub open spec fn ordered(rows: Seq<(Seq<u8>, Summary)>) -> bool {
    forall|i: int, j: int|
        #![trigger rows[i], rows[j]]
        0 <= i < j < rows.len() ==> lex_less(rows[i].0, rows[j].0)
}

/// Some row of `rows` has the key `key`.
pub open spec fn has_key(rows: Seq<(Seq<u8>, Summary)>, key: Seq<u8>) -> bool {
    exists|i: int| 0 <= i < rows.len() && (#[trigger] rows[i]).0 == key
}

/// The index of a row with the key `key`.
pub open spec fn row_of(rows: Seq<(Seq<u8>, Summary)>, key: Seq<u8>) -> int {
    choose|i: int| 0 <= i < rows.len() && (#[trigger] rows[i]).0 == key
}

/// The mapping that `rows` writes down.
pub open spec fn to_map(rows: Seq<(Seq<u8>, Summary)>) -> Map<Seq<u8>, Summary> {
    Map::new(|key: Seq<u8>| has_key(rows, key), |key: Seq<u8>| rows[row_of(rows, key)].1)
}

/// The aggregate that `map` holds for `key`; the aggregate of no values when
/// it holds none.
pub open spec fn summary_at(map: Map<Seq<u8>, Summary>, key: Seq<u8>) -> Summary {
    if map.contains_key(key) {
        map[key]
    } else {
        Summary::empty()
    }
}

/// `map` after one more value for `key`.
pub open spec fn record_into(map: Map<Seq<u8>, Summary>, key: Seq<u8>, value: int) -> Map<
    Seq<u8>,
    Summary,
> {
    map.insert(key, summary_at(map, key).update(value))
}

/// `map` after the aggregate `summary` was folded in under `key`: stored as it
/// is where the key is new, merged into what is there otherwise.
pub open spec fn absorb_into(map: Map<Seq<u8>, Summary>, key: Seq<u8>, summary: Summary) -> Map<
    Seq<u8>,
    Summary,
> {
    if map.contains_key(key) {
        map.insert(key, map[key].merge(summary))
    } else {
        map.insert(key, summary)
    }
}

/// No aggregate in `map` stands for more than `bound` values.
pub open spec fn counts_within(map: Map<Seq<u8>, Summary>, bound: nat) -> bool {
    forall|key: Seq<u8>| #[trigger] map.contains_key(key) ==> map[key].count <= bound
}

/// In ordered rows each key occurs once.
pub proof fn lemma_ordered_distinct(rows: Seq<(Seq<u8>, Summary)>, i: int, j: int)
    requires
        ordered(rows),
        0 <= i < rows.len(),
        0 <= j < rows.len(),
        rows[i].0 == rows[j].0,
    ensures
        i == j,
{
    lemma_lex_irreflexive(rows[i].0);
    if i < j {
        assert(lex_less(rows[i].0, rows[j].0));
    } else if j < i {
        assert(lex_less(rows[j].0, rows[i].0));
    }
}

/// The mapping of ordered rows holds each row under its key.
pub proof fn lemma_to_map_row(rows: Seq<(Seq<u8>, Summary)>, i: int)
    requires
        ordered(rows),
        0 <= i < rows.len(),
    ensures
        to_map(rows).contains_key(rows[i].0),
        to_map(rows)[rows[i].0] == rows[i].1,
{
    let key = rows[i].0;
    assert(has_key(rows, key));
    lemma_ordered_distinct(rows, i, row_of(rows, key));
}

/// Putting a row under a new key at its place in the order puts it into the
/// mapping.
pub proof fn lemma_to_map_insert(
    rows: Seq<(Seq<u8>, Summary)>,
    at: int,
    key: Seq<u8>,
    summary: Summary,
)
    requires
        ordered(rows),
        0 <= at <= rows.len(),
        forall|i: int| 0 <= i < at ==> lex_less((#[trigger] rows[i]).0, key),
        forall|i: int| at <= i < rows.len() ==> lex_less(key, (#[trigger] rows[i]).0),
    ensures
        ordered(rows.insert(at, (key, summary))),
        !has_key(rows, key),
        to_map(rows.insert(at, (key, summary))) == to_map(rows).insert(key, summary),
{
    let grown = rows.insert(at, (key, summary));
    assert forall|i: int, j: int|
        #![trigger grown[i], grown[j]]
        0 <= i < j < grown.len() implies lex_less(grown[i].0, grown[j].0) by {
        let a: int = if i < at {
            i
        } else {
            i - 1
        };
        let b: int = if j < at {
            j
        } else {
            j - 1
        };
        if i == at {
            assert(grown[j] == rows[b]);
        } else if j == at {
            assert(grown[i] == rows[a]);
        } else {
            assert(grown[i] == rows[a]);
            assert(grown[j] == rows[b]);
        }
    }
    assert(!has_key(rows, key)) by {
        if has_key(rows, key) {
            let i = row_of(rows, key);
            lemma_lex_irreflexive(key);
        }
    }
    assert forall|k: Seq<u8>| has_key(grown, k) <==> (k == key || has_key(rows, k)) by {
        if has_key(grown, k) {
            let i = row_of(grown, k);
            if i < at {
                assert(grown[i] == rows[i]);
            } else if i > at {
                assert(grown[i] == rows[i - 1]);
            }
        }
        if k == key {
            assert(grown[at].0 == key);
        }
        if has_key(rows, k) {
            let i = row_of(rows, k);
            if i < at {
                assert(grown[i] == rows[i]);
            } else {
                assert(grown[i + 1] == rows[i]);
            }
        }
    }
    assert forall|k: Seq<u8>| has_key(grown, k) implies #[trigger] to_map(grown)[k] == to_map(
        rows,
    ).insert(key, summary)[k] by {
        let i = row_of(grown, k);
        if i == at {
        } else {
            let a: int = if i < at {
                i
            } else {
                i - 1
            };
            assert(grown[i] == rows[a]);
            lemma_to_map_row(rows, a);
        }
    }
    assert(to_map(grown) =~= to_map(rows).insert(key, summary));
}

/// Replacing the aggregate of a row replaces it in the mapping.
pub proof fn lemma_to_map_update(rows: Seq<(Seq<u8>, Summary)>, at: int, summary: Summary)
    requires
        ordered(rows),
        0 <= at < rows.len(),
    ensures
        ordered(rows.update(at, (rows[at].0, summary))),
        to_map(rows.update(at, (rows[at].0, summary))) == to_map(rows).insert(
            rows[at].0,
            summary,
        ),
{
    let key = rows[at].0;
    let changed = rows.update(at, (key, summary));
    assert forall|i: int, j: int|
        #![trigger changed[i], changed[j]]
        0 <= i < j < changed.len() implies lex_less(changed[i].0, changed[j].0) by {
        assert(changed[i].0 == rows[i].0);
        assert(changed[j].0 == rows[j].0);
    }
    assert forall|k: Seq<u8>| has_key(changed, k) <==> has_key(rows, k) by {
        if has_key(changed, k) {
            let i = row_of(changed, k);
            assert(rows[i].0 == k);
        }
        if has_key(rows, k) {
            let i = row_of(rows, k);
            assert(changed[i].0 == k);
        }
    }
    assert(has_key(rows, key));
    assert forall|k: Seq<u8>| has_key(changed, k) implies #[trigger] to_map(changed)[k] == to_map(
        rows,
    ).insert(key, summary)[k] by {
        let i = row_of(changed, k);
        lemma_to_map_row(changed, i);
        if i != at {
            assert(changed[i] == rows[i]);
            lemma_to_map_row(rows, i);
            if k == key {
                lemma_ordered_distinct(rows, i, at);
            }
        }
    }
    assert(to_map(changed) =~= to_map(rows).insert(key, summary));
}

/// Ordered rows are determined by the mapping they write down: there is one
/// way only to list a mapping in ascending key order.
pub proof fn lemma_ordered_rows_unique(a: Seq<(Seq<u8>, Summary)>, b: Seq<(Seq<u8>, Summary)>)
    requires
        ordered(a),
        ordered(b),
        to_map(a) == to_map(b),
    ensures
        a == b,
    decreases a.len(),
{
    if a.len() == 0 {
        if b.len() > 0 {
            lemma_to_map_row(b, 0);
            assert(to_map(a).contains_key(b[0].0));
        }
        assert(a =~= b);
    } else {
        let n = a.len() - 1;
        lemma_to_map_row(a, n);
        assert(has_key(b, a[n].0));
        let m = row_of(b, a[n].0);
        // the last key of `a` is the largest key of the mapping, so it is the last key of `b`
        if m < b.len() - 1 {
            let last = b.len() - 1;
            lemma_to_map_row(b, last);
            assert(has_key(a, b[last].0));
            let i = row_of(a, b[last].0);
            assert(lex_less(b[m].0, b[last].0));
            if i < n {
                assert(lex_less(a[i].0, a[n].0));
                lemma_lex_asymmetric(a[i].0, a[n].0);
            } else {
                lemma_lex_irreflexive(a[n].0);
            }
        }
        lemma_to_map_row(b, m);
        let a0 = a.drop_last();
        let b0 = b.drop_last();
        assert(ordered(a0)) by {
            assert forall|i: int, j: int|
                #![trigger a0[i], a0[j]]
                0 <= i < j < a0.len() implies lex_less(a0[i].0, a0[j].0) by {
                assert(a0[i] == a[i] && a0[j] == a[j]);
            }
        }
        assert(ordered(b0)) by {
            assert forall|i: int, j: int|
                #![trigger b0[i], b0[j]]
                0 <= i < j < b0.len() implies lex_less(b0[i].0, b0[j].0) by {
                assert(b0[i] == b[i] && b0[j] == b[j]);
            }
        }
        assert forall|k: Seq<u8>| has_key(a0, k) <==> has_key(b0, k) by {
            if has_key(a0, k) {
                let i = row_of(a0, k);
                assert(a0[i] == a[i]);
                lemma_to_map_row(a, i);
                assert(has_key(b, k));
                let j = row_of(b, k);
                if j == m {
                    lemma_ordered_distinct(a, i, n);
                }
                assert(b0[j] == b[j]);
            }
            if has_key(b0, k) {
                let j = row_of(b0, k);
                assert(b0[j] == b[j]);
                lemma_to_map_row(b, j);
                assert(has_key(a, k));
                let i = row_of(a, k);
                if i == n {
                    lemma_ordered_distinct(b, j, m);
                }
                assert(a0[i] == a[i]);
            }
        }
        assert forall|k: Seq<u8>| has_key(a0, k) implies #[trigger] to_map(a0)[k] == to_map(
            b0,
        )[k] by {
            let i = row_of(a0, k);
            let j = row_of(b0, k);
            lemma_to_map_row(a0, i);
            lemma_to_map_row(b0, j);
            assert(a0[i] == a[i]);
            assert(b0[j] == b[j]);
            lemma_to_map_row(a, i);
            lemma_to_map_row(b, j);
        }
        assert(to_map(a0) =~= to_map(b0));
        lemma_ordered_rows_unique(a0, b0);
        assert(a =~= a0.push(a[n]));
        assert(b =~= b0.push(b[m]));
    }
}

#[derive(Clone, Debug)]
struct Entry {
    key: Vec<u8>,
    station: Station,
}

/// A mapping from keys to running aggregates, in ascending key order.
#[derive(Clone, Debug)]
pub struct StationTable {
    entries: Vec<Entry>,
}

impl View for StationTable {
    type V = Map<Seq<u8>, Summary>;

    /// The mapping as a mathematical map.
    open spec fn view(&self) -> Map<Seq<u8>, Summary> {
        to_map(self.rows())
    }
}

impl StationTable {
    /// The rows of the table, as they are stored: key and aggregate.
    pub closed spec fn rows(&self) -> Seq<(Seq<u8>, Summary)> {
        Seq::new(self.entries@.len(), |i: int| (self.entries@[i].key@, self.entries@[i].station@))
    }

    /// The keys strictly increase, and every aggregate is well formed and
    /// stands for at least one value.
    pub open spec fn wf(&self) -> bool {
        &&& ordered(self.rows())
        &&& forall|i: int|
            0 <= i < self.rows().len() ==> (#[trigger] self.rows()[i]).1.wf() && self.rows()[i].1.count
                > 0
    }

    /// An empty table.
    pub fn new() -> (table: StationTable)
        ensures
            table.wf(),
            table.rows() == Seq::<(Seq<u8>, Summary)>::empty(),
            table@ == Map::<Seq<u8>, Summary>::empty(),
    {
        let table = StationTable { entries: Vec::new() };
        proof {
            assert(table.rows() =~= Seq::<(Seq<u8>, Summary)>::empty());
            assert(table@ =~= Map::<Seq<u8>, Summary>::empty());
        }
        table
    }

    /// Number of keys.
    pub fn len(&self) -> (n: usize)
        ensures
            n == self.rows().len(),
    {
        self.entries.len()
    }

    /// Whether the table holds no key.
    pub fn is_empty(&self) -> (empty: bool)
        ensures
            empty == (self.rows().len() == 0),
    {
        self.entries.len() == 0
    }

    /// The key of row `i`, counting in ascending key order.
    pub fn key_at(&self, i: usize) -> (key: &[u8])
        requires
            i < self.rows().len(),
        ensures
            key@ == self.rows()[i as int].0,
    {
        self.entries[i].key.as_slice()
    }

    /// The aggregate of row `i`, counting in ascending key order.
    pub fn station_at(&self, i: usize) -> (station: Station)
        requires
            i < self.rows().len(),
        ensures
            station@ == self.rows()[i as int].1,
            self.wf() ==> station.wf() && station@.count > 0,
    {
        assert(self.wf() ==> self.rows()[i as int].1.wf());
        self.entries[i].station
    }

    /// Finds where `key` stands in the order: the row that holds it, or the
    /// row before which it would have to be put.
    fn locate(&self, key: &[u8]) -> (place: (usize, bool))
        requires
            ordered(self.rows()),
        ensures
            place.0 <= self.rows().len(),
            place.1 ==> place.0 < self.rows().len() && self.rows()[place.0 as int].0 == key@,
            !place.1 ==> !has_key(self.rows(), key@),
            !place.1 ==> forall|i: int|
                0 <= i < place.0 ==> lex_less((#[trigger] self.rows()[i]).0, key@),
            !place.1 ==> forall|i: int|
                place.0 <= i < self.rows().len() ==> lex_less(key@, (#[trigger] self.rows()[i]).0),
    {
        let ghost rows = self.rows();
        let mut lo: usize = 0;
        let mut hi: usize = self.entries.len();
        while lo < hi
            invariant
                rows == self.rows(),
                ordered(rows),
                lo <= hi <= rows.len(),
                rows.len() == self.entries@.len(),
                forall|i: int| 0 <= i < lo ==> lex_less((#[trigger] rows[i]).0, key@),
                forall|i: int| hi <= i < rows.len() ==> lex_less(key@, (#[trigger] rows[i]).0),
            decreases hi - lo,
        {
            let mid: usize = lo + (hi - lo) / 2;
            let order = compare_keys(self.entries[mid].key.as_slice(), key);
            assert(rows[mid as int].0 == self.entries@[mid as int].key@);
            match order {
                KeyOrder::Before => {
                    proof {
                        assert forall|i: int| 0 <= i < mid + 1 implies lex_less(
                            (#[trigger] rows[i]).0,
                            key@,
                        ) by {
                            if i < mid {
                                assert(lex_less(rows[i].0, rows[mid as int].0));
                                lemma_lex_transitive(rows[i].0, rows[mid as int].0, key@);
                            }
                        }
                    }
                    lo = mid + 1;
                },
                KeyOrder::Same => {
                    return (mid, true);
                },
                KeyOrder::After => {
                    proof {
                        assert forall|i: int| mid <= i < rows.len() implies lex_less(
                            key@,
                            (#[trigger] rows[i]).0,
                        ) by {
                            if i > mid {
                                assert(lex_less(rows[mid as int].0, rows[i].0));
                                lemma_lex_transitive(key@, rows[mid as int].0, rows[i].0);
                            }
                        }
                    }
                    hi = mid;
                },
            }
        }
        proof {
            if has_key(rows, key@) {
                let i = row_of(rows, key@);
                lemma_lex_irreflexive(key@);
            }
        }
        (lo, false)
    }

    /// The aggregate held for `key`, if there is one.
    pub fn get(&self, key: &[u8]) -> (found: Option<Station>)
        requires
            self.wf(),
        ensures
            match found {
                Some(station) => self@.contains_key(key@) && station@ == self@[key@]
                    && station.wf() && station@.count > 0,
                None => !self@.contains_key(key@),
            },
    {
        let (at, present) = self.locate(key);
        if present {
            proof {
                lemma_to_map_row(self.rows(), at as int);
                assert(self.rows()[at as int].1.wf());
            }
            Some(self.entries[at].station)
        } else {
            None
        }
    }

    /// Folds one value in under `key`, starting a new aggregate where the key
    /// is new.
    pub fn record(&mut self, key: &[u8], value: i64)
        requires
            old(self).wf(),
            summary_at(old(self)@, key@).count < u64::MAX,
        ensures
            final(self).wf(),
            final(self)@ == record_into(old(self)@, key@, value as int),
    {
        let ghost rows = self.rows();
        let (at, present) = self.locate(key);
        if present {
            proof {
                lemma_to_map_row(rows, at as int);
                assert(rows[at as int].1.wf());
            }
            self.entries[at].station.update(value);
            proof {
                let summary = rows[at as int].1.update(value as int);
                assert(self.rows() =~= rows.update(at as int, (rows[at as int].0, summary)));
                lemma_to_map_update(rows, at as int, summary);
            }
        } else {
            let mut station = Station::new();
            station.update(value);
            let entry = Entry { key: slice_to_vec(key), station };
            self.entries.insert(at, entry);
            proof {
                let summary = Summary::empty().update(value as int);
                assert(self.rows() =~= rows.insert(at as int, (key@, summary)));
                lemma_to_map_insert(rows, at as int, key@, summary);
                assert(!old(self)@.contains_key(key@));
                assert forall|i: int| 0 <= i < self.rows().len() implies (
                #[trigger] self.rows()[i]).1.wf() && self.rows()[i].1.count > 0 by {
                    if i < at {
                        assert(self.rows()[i] == rows[i]);
                    } else if i > at {
                        assert(self.rows()[i] == rows[i - 1]);
                    }
                }
            }
        }
    }

    /// Folds a whole aggregate in under `key`: stores it where the key is
    /// new, merges it into the aggregate that is there otherwise.
    pub fn absorb(&mut self, key: &[u8], station: Station)
        requires
            old(self).wf(),
            station.wf(),
            station@.count > 0,
            summary_at(old(self)@, key@).count + station@.count <= u64::MAX,
        ensures
            final(self).wf(),
            final(self)@ == absorb_into(old(self)@, key@, station@),
    {
        let ghost rows = self.rows();
        let (at, present) = self.locate(key);
        if present {
            proof {
                lemma_to_map_row(rows, at as int);
                assert(rows[at as int].1.wf());
            }
            self.entries[at].station.merge(station);
            proof {
                let summary = rows[at as int].1.merge(station@);
                assert(self.rows() =~= rows.update(at as int, (rows[at as int].0, summary)));
                lemma_to_map_update(rows, at as int, summary);
            }
        } else {
            let entry = Entry { key: slice_to_vec(key), station };
            self.entries.insert(at, entry);
            proof {
                assert(self.rows() =~= rows.insert(at as int, (key@, station@)));
                lemma_to_map_insert(rows, at as int, key@, station@);
                assert(!old(self)@.contains_key(key@));
                assert forall|i: int| 0 <= i < self.rows().len() implies (
                #[trigger] self.rows()[i]).1.wf() && self.rows()[i].1.count > 0 by {
                    if i < at {
                        assert(self.rows()[i] == rows[i]);
                    } else if i > at {
                        assert(self.rows()[i] == rows[i - 1]);
                    }
                }
            }
        }
    }
}

} // verus!
