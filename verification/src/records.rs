//! Splitting a text into records, and a record into key and value.
//!
//! Every terminator ends a record. What follows the last terminator is one
//! more record unless it is empty, so a text may or may not end in a
//! terminator. Within a record the last separator parts the key from the
//! value; separators before it belong to the key.

use vstd::prelude::*;
use vstd::slice::slice_subrange;
use crate::decimal::{parse_value, value_of};
use crate::error::ParseError;
use crate::scan::{find_byte, lemma_find_byte, lemma_find_byte_is, SEPARATOR, TERMINATOR};

verus! {

/// The records of `buf` that start at or after `from`, where `from` is the
/// start of a record.
pub open spec fn records_from(buf: Seq<u8>, from: int) -> Seq<Seq<u8>>
    decreases buf.len() + 1 - from,
{
    if from < 0 || from >= buf.len() {
        Seq::empty()
    } else {
        let end = find_byte(buf, from, TERMINATOR);
        proof {
            lemma_find_byte(buf, from, TERMINATOR);
        }
        seq![buf.subrange(from, end)] + records_from(buf, end + 1)
    }
}

/// The records of `buf`, in the order in which they stand.
pub open spec fn records(buf: Seq<u8>) -> Seq<Seq<u8>> {
    records_from(buf, 0)
}

/// Index of the last separator in `record`, or -1 when there is none.
pub open spec fn last_separator(record: Seq<u8>) -> int
    decreases record.len(),
{
    if record.len() == 0 {
        -1
    } else if record.last() == SEPARATOR {
        record.len() - 1
    } else {
        last_separator(record.drop_last())
    }
}

/// The key and the value that `record` holds, or why it holds none.
pub open spec fn record_of(record: Seq<u8>) -> Result<(Seq<u8>, int), ParseError> {
    let at = last_separator(record);
    if at < 0 {
        Err(ParseError::MissingSeparator)
    } else {
        match value_of(record.subrange(at + 1, record.len() as int)) {
            Ok(value) => Ok((record.subrange(0, at), value)),
            Err(error) => Err(error),
        }
    }
}

/// `last_separator` names a separator that no other follows.
pub proof fn lemma_last_separator(record: Seq<u8>)
    ensures
        -1 <= last_separator(record) < record.len(),
        last_separator(record) >= 0 ==> record[last_separator(record)] == SEPARATOR,
        forall|k: int| last_separator(record) < k < record.len() ==> record[k] != SEPARATOR,
    decreases record.len(),
{
    if record.len() > 0 && record.last() != SEPARATOR {
        let front = record.drop_last();
        lemma_last_separator(front);
        assert forall|k: int| last_separator(record) < k < record.len() implies record[k]
            != SEPARATOR by {
            if k < front.len() {
                assert(front[k] == record[k]);
            }
        }
    }
}

/// The records of a text that ends in a terminator, followed by those of a
/// second text, are the records of the two texts joined.
pub proof fn lemma_records_concat(head: Seq<u8>, tail: Seq<u8>)
    requires
        head.len() == 0 || head.last() == TERMINATOR,
    ensures
        records(head + tail) == records(head) + records(tail),
{
    lemma_records_concat_from(head, tail, 0);
}

proof fn lemma_records_shift(head: Seq<u8>, tail: Seq<u8>, from: int)
    requires
        0 <= from <= tail.len(),
    ensures
        records_from(head + tail, head.len() + from) == records_from(tail, from),
    decreases tail.len() - from,
{
    let whole = head + tail;
    let n = head.len() as int;
    assert(whole.len() == n + tail.len());
    if from < tail.len() {
        let end = find_byte(tail, from, TERMINATOR);
        lemma_find_byte(tail, from, TERMINATOR);
        assert forall|k: int| n + from <= k < n + end implies whole[k] != TERMINATOR by {
            assert(whole[k] == tail[k - n]);
        }
        if end < tail.len() {
            assert(whole[n + end] == tail[end]);
        }
        lemma_find_byte_is(whole, n + from, TERMINATOR, n + end);
        assert(whole.subrange(n + from, n + end) =~= tail.subrange(from, end));
        if end < tail.len() {
            lemma_records_shift(head, tail, end + 1);
        } else {
            assert(records_from(whole, n + end + 1) =~= records_from(tail, end + 1));
        }
        assert(records_from(whole, n + from) =~= seq![whole.subrange(n + from, n + end)]
            + records_from(whole, n + end + 1));
    } else {
        assert(records_from(whole, n + from) =~= records_from(tail, from));
    }
}

proof fn lemma_records_concat_from(head: Seq<u8>, tail: Seq<u8>, from: int)
    requires
        head.len() == 0 || head.last() == TERMINATOR,
        0 <= from <= head.len(),
        from == 0 || head[from - 1] == TERMINATOR,
    ensures
        records_from(head + tail, from) == records_from(head, from) + records(tail),
    decreases head.len() - from,
{
    let whole = head + tail;
    if from == head.len() {
        lemma_records_shift(head, tail, 0);
        assert(records_from(head, from) + records(tail) =~= records(tail));
    } else {
        let end = find_byte(head, from, TERMINATOR);
        lemma_find_byte(head, from, TERMINATOR);
        assert(end < head.len()) by {
            if end == head.len() {
                assert(head[head.len() - 1] != TERMINATOR);
            }
        }
        assert forall|k: int| from <= k < end implies whole[k] != TERMINATOR by {
            assert(whole[k] == head[k]);
        }
        assert(whole[end] == head[end]);
        lemma_find_byte_is(whole, from, TERMINATOR, end);
        assert(whole.subrange(from, end) =~= head.subrange(from, end));
        lemma_records_concat_from(head, tail, end + 1);
        assert(records_from(whole, from) =~= records_from(head, from) + records(tail));
    }
}

/// `buf` without its last byte, where that is a terminator.
pub open spec fn trimmed(buf: Seq<u8>) -> Seq<u8> {
    if buf.len() > 0 && buf.last() == TERMINATOR {
        buf.drop_last()
    } else {
        buf
    }
}

/// The pieces into which the terminators cut `buf` from `from` on: one more
/// than there are terminators, the last of them what follows the last
/// terminator, empty or not.
pub open spec fn pieces_from(buf: Seq<u8>, from: int) -> Seq<Seq<u8>>
    decreases buf.len() + 1 - from,
{
    if from < 0 || from > buf.len() {
        Seq::empty()
    } else {
        let end = find_byte(buf, from, TERMINATOR);
        proof {
            lemma_find_byte(buf, from, TERMINATOR);
        }
        if end < buf.len() {
            seq![buf.subrange(from, end)] + pieces_from(buf, end + 1)
        } else {
            seq![buf.subrange(from, buf.len() as int)]
        }
    }
}

proof fn lemma_records_are_pieces_from(buf: Seq<u8>, from: int)
    requires
        0 <= from < buf.len(),
        from <= trimmed(buf).len(),
    ensures
        records_from(buf, from) == pieces_from(trimmed(buf), from),
    decreases buf.len() - from,
{
    let short = trimmed(buf);
    let end = find_byte(buf, from, TERMINATOR);
    lemma_find_byte(buf, from, TERMINATOR);
    if end < short.len() {
        assert forall|k: int| from <= k < end implies short[k] != TERMINATOR by {
            assert(short[k] == buf[k]);
        }
        assert(short[end] == buf[end]);
        lemma_find_byte_is(short, from, TERMINATOR, end);
        assert(short.subrange(from, end) =~= buf.subrange(from, end));
        lemma_records_are_pieces_from(buf, end + 1);
    } else {
        assert forall|k: int| from <= k < short.len() implies short[k] != TERMINATOR by {
            assert(short[k] == buf[k]);
        }
        lemma_find_byte_is(short, from, TERMINATOR, short.len() as int);
        assert(short.subrange(from, short.len() as int) =~= buf.subrange(from, end));
        assert(records_from(buf, end + 1) =~= Seq::<Seq<u8>>::empty());
        assert(records_from(buf, from) =~= seq![buf.subrange(from, end)]);
    }
}

/// The records of a text that is not empty are found by dropping one
/// terminator from its end, if it ends in one, and cutting what is left at
/// every terminator.
pub proof fn lemma_records_are_pieces(buf: Seq<u8>)
    requires
        buf.len() > 0,
    ensures
        records(buf) == pieces_from(trimmed(buf), 0),
{
    lemma_records_are_pieces_from(buf, 0);
}

/// Parts a record into its key and its value.
pub fn parse_record<'a>(record: &'a [u8]) -> (result: Result<(&'a [u8], i64), ParseError>)
    ensures
        match record_of(record@) {
            Ok(pair) => result matches Ok(found) && found.0@ == pair.0 && found.1 == pair.1,
            Err(error) => result matches Err(e) && e == error,
        },
{
    let mut at: usize = 0;
    let mut found: bool = false;
    let mut i: usize = 0;
    while i < record.len()
        invariant
            i <= record.len(),
            found ==> at == last_separator(record@.take(i as int)),
            !found ==> last_separator(record@.take(i as int)) == -1,
        decreases record.len() - i,
    {
        proof {
            assert(record@.take(i + 1).drop_last() =~= record@.take(i as int));
        }
        if record[i] == SEPARATOR {
            at = i;
            found = true;
        }
        i = i + 1;
    }
    proof {
        assert(record@.take(i as int) =~= record@);
        lemma_last_separator(record@);
    }
    if !found {
        return Err(ParseError::MissingSeparator);
    }
    let key = slice_subrange(record, 0, at);
    let text = slice_subrange(record, at + 1, record.len());
    match parse_value(text) {
        Ok(value) => Ok((key, value)),
        Err(error) => Err(error),
    }
}

} // verus!
