//! Cutting a text into partitions that hold whole records only.
//!
//! The planner walks the text in strides of the average partition size and
//! moves each cut forward to the position just behind the next terminator.

use vstd::prelude::*;
use vstd::arithmetic::div_mod::lemma_fundamental_div_mod;
use crate::scan::{find_byte, lemma_find_byte, scan_to, TERMINATOR};

verus! {

/// `len / parts`, rounded up.
pub open spec fn stride(len: int, parts: int) -> int
    recommends
        parts > 0,
{
    if len % parts == 0 {
        len / parts
    } else {
        len / parts + 1
    }
}

/// The first record start at or after `target`: the position just behind the
/// first terminator found from `target` on, or the end of the text when no
/// terminator follows.
pub open spec fn boundary_after(data: Seq<u8>, target: int) -> int {
    let at = find_byte(data, target, TERMINATOR);
    if at < data.len() {
        at + 1
    } else {
        data.len() as int
    }
}

/// The boundaries that follow `cursor`, the last of them the end of the text.
pub open spec fn boundaries_from(data: Seq<u8>, cursor: int, stride: int) -> Seq<int>
    decreases data.len() - cursor,
{
    if cursor < 0 || cursor >= data.len() {
        Seq::empty()
    } else if stride <= 0 || cursor + stride >= data.len() {
        seq![data.len() as int]
    } else {
        let next = boundary_after(data, cursor + stride);
        proof {
            lemma_find_byte(data, cursor + stride, TERMINATOR);
        }
        seq![next] + boundaries_from(data, next, stride)
    }
}

/// The boundaries of `data` cut into at most `parts` partitions: 0 first,
/// then each cut, then the length of the text. An empty text has the one
/// boundary 0, and so no partition.
pub open spec fn plan(data: Seq<u8>, parts: int) -> Seq<int>
    recommends
        parts > 0,
{
    seq![0int] + boundaries_from(data, 0, stride(data.len() as int, parts))
}

/// What makes a list of boundaries fit for reading `data` partition by
/// partition: it starts at 0, ends at the length of the text, strictly
/// increases, and every boundary between the two ends stands just behind a
/// terminator.
pub open spec fn valid_boundaries(data: Seq<u8>, offsets: Seq<int>) -> bool {
    &&& offsets.len() >= 1
    &&& offsets[0] == 0
    &&& offsets.last() == data.len()
    &&& forall|i: int, j: int| 0 <= i < j < offsets.len() ==> offsets[i] < offsets[j]
    &&& forall|i: int|
        0 < i < offsets.len() - 1 ==> data[#[trigger] offsets[i] - 1] == TERMINATOR
}

/// The bytes of every partition, joined in the order of the boundaries.
pub open spec fn joined(data: Seq<u8>, offsets: Seq<int>) -> Seq<u8>
    decreases offsets.len(),
{
    if offsets.len() < 2 {
        Seq::empty()
    } else {
        joined(data, offsets.drop_last()) + data.subrange(
            offsets[offsets.len() - 2],
            offsets[offsets.len() - 1],
        )
    }
}

/// The offsets of a vector as mathematical integers.
pub open spec fn positions(offsets: Seq<usize>) -> Seq<int> {
    offsets.map_values(|o: usize| o as int)
}

/// Partitions that follow one another from the start of the text give back,
/// joined, the text up to the last boundary: no byte is lost, none doubled.
pub proof fn lemma_joined_is_prefix(data: Seq<u8>, offsets: Seq<int>)
    requires
        offsets.len() >= 1,
        offsets[0] == 0,
        offsets.last() <= data.len(),
        forall|i: int, j: int| 0 <= i < j < offsets.len() ==> offsets[i] < offsets[j],
    ensures
        joined(data, offsets) == data.take(offsets.last()),
    decreases offsets.len(),
{
    if offsets.len() < 2 {
        assert(data.take(0) =~= Seq::<u8>::empty());
    } else {
        let front = offsets.drop_last();
        let n = offsets.len() as int;
        assert(front.last() == offsets[n - 2]);
        assert(offsets[n - 2] < offsets[n - 1]);
        assert forall|i: int, j: int| 0 <= i < j < front.len() implies front[i] < front[j] by {
            assert(front[i] == offsets[i] && front[j] == offsets[j]);
        }
        lemma_joined_is_prefix(data, front);
        assert(data.take(offsets[n - 2]) + data.subrange(offsets[n - 2], offsets[n - 1])
            =~= data.take(offsets[n - 1]));
    }
}

/// The partitions of valid boundaries, joined, are the whole text.
pub proof fn lemma_partitions_cover(data: Seq<u8>, offsets: Seq<int>)
    requires
        valid_boundaries(data, offsets),
    ensures
        joined(data, offsets) == data,
{
    lemma_joined_is_prefix(data, offsets);
    assert(data.take(data.len() as int) =~= data);
}

/// `parts` strides reach the end of the text, and a stride is at least one
/// byte unless the text is empty.
pub proof fn lemma_stride(len: int, parts: int)
    requires
        len >= 0,
        parts > 0,
    ensures
        len <= parts * stride(len, parts),
        len > 0 ==> 1 <= stride(len, parts) <= len,
        len == 0 ==> stride(len, parts) == 0,
{
    let q = len / parts;
    let r = len % parts;
    lemma_fundamental_div_mod(len, parts);
    assert(parts * (q + 1) == parts * q + parts) by (nonlinear_arith);
    assert(q >= 0 && (parts >= 2 && q >= 1 ==> q + 1 <= len) && (q == 0 ==> len == r)
        && (parts == 1 ==> r == 0 && q == len)) by (nonlinear_arith)
        requires
            len == parts * q + r,
            0 <= r < parts,
            len >= 0,
            parts > 0,
    ;
}

/// What follows a cursor that stands at a record start: boundaries that
/// strictly increase up to the end of the text, each but the last just behind
/// a terminator, and no more of them than strides are needed to reach the end.
pub proof fn lemma_boundaries_from(data: Seq<u8>, cursor: int, stride: int, budget: int)
    requires
        0 <= cursor <= data.len(),
        stride > 0,
        budget >= 0,
        data.len() - cursor <= budget * stride,
    ensures
        boundaries_from(data, cursor, stride).len() <= budget,
        cursor < data.len() ==> boundaries_from(data, cursor, stride).len() >= 1
            && boundaries_from(data, cursor, stride).last() == data.len(),
        forall|i: int|
            0 <= i < boundaries_from(data, cursor, stride).len() ==> cursor < (
            #[trigger] boundaries_from(data, cursor, stride)[i]) <= data.len(),
        forall|i: int, j: int|
            0 <= i < j < boundaries_from(data, cursor, stride).len() ==> boundaries_from(
                data,
                cursor,
                stride,
            )[i] < boundaries_from(data, cursor, stride)[j],
        forall|i: int|
            0 <= i < boundaries_from(data, cursor, stride).len() - 1 ==> data[(
            #[trigger] boundaries_from(data, cursor, stride)[i]) - 1] == TERMINATOR,
    decreases data.len() - cursor,
{
    let all = boundaries_from(data, cursor, stride);
    if cursor < data.len() {
        assert(budget >= 1) by (nonlinear_arith)
            requires
                data.len() - cursor <= budget * stride,
                data.len() - cursor > 0,
                budget >= 0,
                stride > 0,
        ;
        if cursor + stride < data.len() {
            let next = boundary_after(data, cursor + stride);
            lemma_find_byte(data, cursor + stride, TERMINATOR);
            let rest = boundaries_from(data, next, stride);
            assert(all == seq![next] + rest);
            assert(data.len() - next <= (budget - 1) * stride) by (nonlinear_arith)
                requires
                    data.len() - cursor <= budget * stride,
                    next >= cursor + stride,
            ;
            lemma_boundaries_from(data, next, stride, budget - 1);
            assert forall|i: int| 0 <= i < all.len() implies cursor < (#[trigger] all[i])
                <= data.len() by {
                if i > 0 {
                    assert(all[i] == rest[i - 1]);
                }
            }
            assert forall|i: int, j: int| 0 <= i < j < all.len() implies all[i] < all[j] by {
                assert(all[j] == rest[j - 1]);
                if i > 0 {
                    assert(all[i] == rest[i - 1]);
                }
            }
            assert forall|i: int| 0 <= i < all.len() - 1 implies data[(#[trigger] all[i]) - 1]
                == TERMINATOR by {
                if i > 0 {
                    assert(all[i] == rest[i - 1]);
                } else {
                    assert(rest.len() >= 1);
                    assert(next < data.len());
                }
            }
            if next < data.len() {
                assert(all.last() == rest.last());
            }
        }
    }
}

/// The plan is a valid list of boundaries with at most `parts` partitions.
pub proof fn lemma_plan_valid(data: Seq<u8>, parts: int)
    requires
        parts > 0,
    ensures
        valid_boundaries(data, plan(data, parts)),
        plan(data, parts).len() <= parts + 1,
{
    let len = data.len() as int;
    let step = stride(len, parts);
    let rest = boundaries_from(data, 0, step);
    let all = plan(data, parts);
    lemma_stride(len, parts);
    if len > 0 {
        lemma_boundaries_from(data, 0, step, parts);
        assert(all.last() == rest.last());
        assert forall|i: int, j: int| 0 <= i < j < all.len() implies all[i] < all[j] by {
            assert(all[j] == rest[j - 1]);
            if i > 0 {
                assert(all[i] == rest[i - 1]);
            }
        }
        assert forall|i: int| 0 < i < all.len() - 1 implies data[#[trigger] all[i] - 1]
            == TERMINATOR by {
            assert(all[i] == rest[i - 1]);
        }
    }
}

/// What the planner does next, given where its cursor stands.
#[derive(Clone, Copy, Debug, PartialEq, Eq, Structural)]
pub enum PlanStep {
    /// The cursor stands at the end of the text: no boundary is left to find.
    Done,
    /// One stride from the cursor reaches the end of the text: its length is
    /// the last boundary.
    Finish,
    /// The next boundary stands just behind the first terminator at or after
    /// this position, or at the end of the text when no terminator follows.
    Scan(usize),
}

/// The stride for a text of `len` bytes cut into at most `parts` partitions.
pub fn stride_of(len: usize, parts: usize) -> (step: usize)
    requires
        parts > 0,
    ensures
        step == stride(len as int, parts as int),
        len > 0 ==> 1 <= step <= len,
        len == 0 ==> step == 0,
{
    proof {
        lemma_stride(len as int, parts as int);
    }
    if len % parts == 0 {
        len / parts
    } else {
        len / parts + 1
    }
}

/// Decides the planner's next step for a text of `len` bytes, from the last
/// boundary found and the stride.
///
/// The steps, taken one after the other from cursor 0 until `Done`, find the
/// boundaries of `plan` behind the first: the caller needs no more of the
/// text than what it scans for the next terminator.
pub fn next_step(cursor: usize, step: usize, len: usize) -> (next: PlanStep)
    ensures
        next == (if cursor >= len {
            PlanStep::Done
        } else if step == 0 || step >= len - cursor {
            PlanStep::Finish
        } else {
            PlanStep::Scan((cursor + step) as usize)
        }),
        forall|data: Seq<u8>|
            data.len() == len ==> #[trigger] boundaries_from(data, cursor as int, step as int)
                == (match next {
                PlanStep::Done => Seq::<int>::empty(),
                PlanStep::Finish => seq![len as int],
                PlanStep::Scan(target) => seq![boundary_after(data, target as int)]
                    + boundaries_from(data, boundary_after(data, target as int), step as int),
            }),
{
    if cursor >= len {
        PlanStep::Done
    } else if step == 0 || step >= len - cursor {
        PlanStep::Finish
    } else {
        PlanStep::Scan(cursor + step)
    }
}

/// The boundary that a scan gives: `at` is where the scan met the first
/// terminator, or `len` where it met none before the end of the text.
pub fn boundary_behind(at: usize, len: usize) -> (next: usize)
    ensures
        next == (if at < len {
            at + 1
        } else {
            len as int
        }),
        forall|data: Seq<u8>, target: int|
            data.len() == len && at == find_byte(data, target, TERMINATOR) ==> next
                == #[trigger] boundary_after(data, target),
{
    if at < len {
        at + 1
    } else {
        len
    }
}

/// Plans the partitions of `data`: at most `parts` of them, each a run of
/// whole records.
///
/// Returns the boundaries in ascending order, the first 0 and the last the
/// length of `data`; partition `i` is the bytes from boundary `i` up to
/// boundary `i + 1`. No partition is empty.
pub fn plan_partitions(data: &[u8], parts: usize) -> (offsets: Vec<usize>)
    requires
        parts > 0,
    ensures
        positions(offsets@) == plan(data@, parts as int),
        valid_boundaries(data@, positions(offsets@)),
        joined(data@, positions(offsets@)) == data@,
        offsets.len() <= parts + 1,
{
    let len: usize = data.len();
    proof {
        lemma_plan_valid(data@, parts as int);
        lemma_partitions_cover(data@, plan(data@, parts as int));
    }
    let step: usize = stride_of(len, parts);
    let mut offsets: Vec<usize> = Vec::new();
    offsets.push(0);
    let mut cursor: usize = 0;
    proof {
        assert(positions(offsets@) =~= seq![0int]);
    }
    while cursor < len
        invariant
            len == data.len(),
            cursor <= len,
            step == stride(len as int, parts as int),
            len > 0 ==> step >= 1,
            plan(data@, parts as int) == positions(offsets@) + boundaries_from(
                data@,
                cursor as int,
                step as int,
            ),
        decreases len - cursor,
    {
        let ghost before = positions(offsets@);
        let ghost ahead = boundaries_from(data@, cursor as int, step as int);
        let next: usize = match next_step(cursor, step, len) {
            PlanStep::Scan(target) => {
                let at: usize = scan_to(data, target, TERMINATOR);
                proof {
                    lemma_find_byte(data@, target as int, TERMINATOR);
                }
                boundary_behind(at, len)
            },
            _ => len,
        };
        let ghost rest = boundaries_from(data@, next as int, step as int);
        offsets.push(next);
        proof {
            assert(ahead == seq![next as int] + rest);
            assert(positions(offsets@) =~= before.push(next as int));
            assert(before + (seq![next as int] + rest) =~= before.push(next as int) + rest);
        }
        cursor = next;
    }
    proof {
        assert(positions(offsets@) + boundaries_from(data@, cursor as int, step as int)
            =~= positions(offsets@));
        assert(positions(offsets@).len() == offsets@.len());
    }
    offsets
}

} // verus!
