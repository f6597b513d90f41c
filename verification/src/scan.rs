//! Forward search for a byte, shared by the planner and the tokenizers.

use vstd::prelude::*;

verus! {

/// Ends a record.
pub const TERMINATOR: u8 = 10;

/// Stands between the key and the value of a record.
pub const SEPARATOR: u8 = 59;

/// Index of the first `byte` in `buf` at or after `from`, or the length of
/// `buf` when there is none.
pub open spec fn find_byte(buf: Seq<u8>, from: int, byte: u8) -> int
    decreases buf.len() - from,
{
    if from < 0 || from >= buf.len() {
        buf.len() as int
    } else if buf[from] == byte {
        from
    } else {
        find_byte(buf, from + 1, byte)
    }
}

/// `find_byte` stops at the first occurrence and nowhere else.
pub proof fn lemma_find_byte(buf: Seq<u8>, from: int, byte: u8)
    requires
        0 <= from <= buf.len(),
    ensures
        from <= find_byte(buf, from, byte) <= buf.len(),
        find_byte(buf, from, byte) < buf.len() ==> buf[find_byte(buf, from, byte)] == byte,
        forall|k: int| from <= k < find_byte(buf, from, byte) ==> buf[k] != byte,
    decreases buf.len() - from,
{
    if from < buf.len() && buf[from] != byte {
        lemma_find_byte(buf, from + 1, byte);
    }
}

/// A position that no occurrence precedes, and that holds one or is the end,
/// is what `find_byte` returns.
pub proof fn lemma_find_byte_is(buf: Seq<u8>, from: int, byte: u8, at: int)
    requires
        0 <= from <= at <= buf.len(),
        forall|k: int| from <= k < at ==> buf[k] != byte,
        at < buf.len() ==> buf[at] == byte,
    ensures
        find_byte(buf, from, byte) == at,
    decreases at - from,
{
    if from < at {
        lemma_find_byte_is(buf, from + 1, byte, at);
    }
}

/// Scans forward from `from` to the first `byte`, or to the end.
pub fn scan_to(data: &[u8], from: usize, byte: u8) -> (at: usize)
    requires
        from <= data.len(),
    ensures
        at == find_byte(data@, from as int, byte),
        from <= at <= data.len(),
{
    let mut at: usize = from;
    while at < data.len() && data[at] != byte
        invariant
            from <= at <= data.len(),
            forall|k: int| from <= k < at ==> data@[k] != byte,
        decreases data.len() - at,
    {
        at = at + 1;
    }
    proof {
        lemma_find_byte_is(data@, from as int, byte, at as int);
    }
    at
}

} // verus!
