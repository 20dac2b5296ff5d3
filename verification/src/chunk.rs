//! Splitting an extent of lines into slices that end at line ends.

use vstd::prelude::*;

verus! {

/// The byte that ends a line.
pub const LINE_FEED: u8 = 10;

/// The first position at or after `from` that holds a line feed, or the
/// length of the extent where none does.
pub open spec fn line_end(extent: Seq<u8>, from: int) -> int
    decreases extent.len() - from,
{
    if from >= extent.len() {
        extent.len() as int
    } else if from >= 0 && extent[from] == LINE_FEED {
        from
    } else {
        line_end(extent, from + 1)
    }
}

/// The position behind the first line feed at or after `from`, or the
/// length of the extent where there is none.
pub open spec fn next_line(extent: Seq<u8>, from: int) -> int {
    if line_end(extent, from) < extent.len() {
        line_end(extent, from) + 1
    } else {
        extent.len() as int
    }
}

/// Whether `at` lies between two lines of the extent: at its start, right
/// behind a line feed, or at its end.
pub open spec fn between_lines(extent: Seq<u8>, at: int) -> bool {
    ||| at == 0
    ||| 0 < at <= extent.len() && extent[at - 1] == LINE_FEED
    ||| at == extent.len()
}

/// The slices one after the other.
pub open spec fn joined(slices: Seq<&[u8]>) -> Seq<u8>
    decreases slices.len(),
{
    if slices.len() == 0 {
        Seq::empty()
    } else {
        joined(slices.drop_last()) + slices.last()@
    }
}

/// The position at which slice `k` begins when the slices stand one after
/// the other: the length of the slices before it.
pub open spec fn start_of(slices: Seq<&[u8]>, k: int) -> int {
    joined(slices.take(k)).len() as int
}

/// Whether the slices are a partition of the extent into lines: one after
/// the other they are the extent, no byte lost and none twice, and every
/// slice begins and ends between two lines.
pub open spec fn partitions(extent: Seq<u8>, slices: Seq<&[u8]>) -> bool {
    &&& joined(slices) == extent
    &&& forall|k: int|
        0 <= k <= slices.len() ==> between_lines(extent, #[trigger] start_of(slices, k))
}

/// The position from which the end of slice `k` is looked for: one share
/// from the start for the first slice, and one share on from the line feed
/// before it for a slice that begins at `start`.
pub open spec fn sought_from(share: int, k: int, start: int) -> int {
    if k == 0 {
        share
    } else {
        start - 1 + share
    }
}

/// `line_end` lies at or after `from`, inside the extent or at its end, and
/// holds a line feed where it lies inside.
pub proof fn lemma_line_end(extent: Seq<u8>, from: int)
    requires
        0 <= from <= extent.len(),
    ensures
        from <= line_end(extent, from) <= extent.len(),
        line_end(extent, from) < extent.len() ==> extent[line_end(extent, from)] == LINE_FEED,
        forall|i: int| from <= i < line_end(extent, from) ==> extent[i] != LINE_FEED,
    decreases extent.len() - from,
{
    if from < extent.len() && extent[from] != LINE_FEED {
        lemma_line_end(extent, from + 1);
    }
}

/// From the last byte on, the next line begins at the end of the extent.
pub proof fn lemma_next_line_at_end(extent: Seq<u8>, from: int)
    requires
        from >= extent.len() - 1,
    ensures
        next_line(extent, from) == extent.len(),
{
    let len = extent.len() as int;
    assert(line_end(extent, len) == len);
    if from == -1 {
        assert(line_end(extent, from) == line_end(extent, 0));
    } else if from == len - 1 && extent[from] != LINE_FEED {
        assert(line_end(extent, from) == line_end(extent, len));
    }
}

/// The slices up to and with slice `k` are the slices before it, followed
/// by slice `k`.
pub proof fn lemma_joined_step(slices: Seq<&[u8]>, k: int)
    requires
        0 <= k < slices.len(),
    ensures
        joined(slices.take(k + 1)) == joined(slices.take(k)) + slices[k]@,
        start_of(slices, k + 1) == start_of(slices, k) + slices[k]@.len(),
{
    assert(slices.take(k + 1).drop_last() =~= slices.take(k));
}

/// The first slices, one after the other, are the beginning of all of them
/// one after the other.
pub proof fn lemma_joined_prefix(slices: Seq<&[u8]>, k: int)
    requires
        0 <= k <= slices.len(),
    ensures
        0 <= start_of(slices, k) <= joined(slices).len(),
        joined(slices.take(k)) == joined(slices).take(start_of(slices, k)),
    decreases slices.len(),
{
    if k == slices.len() {
        assert(slices.take(k) =~= slices);
        assert(joined(slices).take(joined(slices).len() as int) =~= joined(slices));
    } else {
        let before = slices.drop_last();
        lemma_joined_prefix(before, k);
        assert(before.take(k) =~= slices.take(k));
        assert(joined(slices).take(start_of(slices, k)) =~= joined(before).take(
            start_of(slices, k),
        ));
    }
}

/// In a partition every slice is the piece of the extent between its start
/// and the start of the next, and the starts do not go back.
pub proof fn lemma_slice_of_partition(extent: Seq<u8>, slices: Seq<&[u8]>, k: int)
    requires
        joined(slices) == extent,
        0 <= k < slices.len(),
    ensures
        0 <= start_of(slices, k) <= start_of(slices, k + 1) <= extent.len(),
        slices[k]@ == extent.subrange(start_of(slices, k), start_of(slices, k + 1)),
        start_of(slices, 0) == 0,
        start_of(slices, slices.len() as int) == extent.len(),
{
    lemma_joined_step(slices, k);
    lemma_joined_prefix(slices, k);
    lemma_joined_prefix(slices, k + 1);
    assert(slices.take(slices.len() as int) =~= slices);
    assert(slices[k]@ =~= extent.subrange(start_of(slices, k), start_of(slices, k + 1))) by {
        let whole = joined(slices.take(k + 1));
        assert(whole == extent.take(start_of(slices, k + 1)));
        assert forall|i: int| 0 <= i < slices[k]@.len() implies slices[k]@[i] == extent[start_of(
            slices,
            k,
        ) + i] by {
            assert(whole[start_of(slices, k) + i] == slices[k]@[i]);
        }
    }
}

/// No slice boundary falls inside a line: in a partition of an extent that
/// is empty or ends with a line feed, every slice begins at the start of
/// the extent or right behind a line feed, and ends where the next begins
/// or with the extent.
pub proof fn lemma_boundaries_behind_line_feeds(extent: Seq<u8>, slices: Seq<&[u8]>, k: int)
    requires
        partitions(extent, slices),
        extent.len() == 0 || extent.last() == LINE_FEED,
        0 <= k <= slices.len(),
    ensures
        0 <= start_of(slices, k) <= extent.len(),
        start_of(slices, k) == 0 || extent[start_of(slices, k) - 1] == LINE_FEED,
{
    lemma_joined_prefix(slices, k);
    assert(between_lines(extent, start_of(slices, k)));
}

/// What one more slice does: the slices are the extent up to the end of the
/// new one, which begins where the one before it ends, and the slices
/// before it begin where they did.
proof fn lemma_pushed(
    extent: Seq<u8>,
    before: Seq<&[u8]>,
    after: Seq<&[u8]>,
    base: int,
    end: int,
)
    requires
        0 <= base <= end <= extent.len(),
        joined(before) == extent.take(base),
        after.len() == before.len() + 1,
        after.drop_last() == before,
        after.last()@ == extent.subrange(base, end),
    ensures
        joined(after) == extent.take(end),
        start_of(after, after.len() as int) == end,
        forall|j: int| 0 <= j <= before.len() ==> start_of(after, j) == start_of(before, j),
{
    assert(joined(after) =~= extent.take(end));
    assert(after.take(after.len() as int) =~= after);
    assert forall|j: int| 0 <= j <= before.len() implies start_of(after, j) == start_of(
        before,
        j,
    ) by {
        assert(after.take(j) =~= before.take(j));
    }
}

/// Splits `extent` into `count` slices that are a partition of it into
/// lines.
///
/// The end of the first slice is looked for one share of the extent,
/// `len / count`, from the start, and the end of a later slice one share on
/// from the line feed before the slice. A slice ends behind the first line
/// feed at or after that position. The last slice ends with the extent.
pub fn chunkify<'a>(extent: &'a [u8], count: usize) -> (chunks: Vec<&'a [u8]>)
    ensures
        chunks@.len() == count,
        count > 0 ==> partitions(extent@, chunks@),
        forall|k: int|
            0 <= k < count - 1 ==> #[trigger] start_of(chunks@, k + 1) == next_line(
                extent@,
                sought_from(extent@.len() as int / count as int, k, start_of(chunks@, k)),
            ),
{
    let mut chunks: Vec<&'a [u8]> = Vec::new();
    if count == 0 {
        return chunks;
    }
    let size = extent.len();
    let share = size / count;
    let mut base: usize = 0;
    let mut offset: usize = share;
    let mut k: usize = 0;
    proof {
        assert(share <= size) by (nonlinear_arith)
            requires
                share == size as int / count as int,
                count > 0,
                size >= 0,
        ;
        assert(chunks@.take(0) =~= chunks@);
        assert(extent@.take(0) =~= joined(chunks@));
    }
    while k + 1 < count
        invariant
            count > 0,
            size == extent@.len(),
            share == size as int / count as int,
            k < count,
            chunks@.len() == k,
            base <= size,
            offset <= size,
            base <= offset + 1,
            joined(chunks@) == extent@.take(base as int),
            forall|j: int|
                0 <= j <= k ==> between_lines(extent@, #[trigger] start_of(chunks@, j)),
            start_of(chunks@, k as int) == base,
            next_line(extent@, offset as int) == next_line(
                extent@,
                sought_from(share as int, k as int, base as int),
            ),
            forall|j: int|
                0 <= j < k ==> #[trigger] start_of(chunks@, j + 1) == next_line(
                    extent@,
                    sought_from(share as int, j, start_of(chunks@, j)),
                ),
        decreases count - k,
    {
        let ghost from = offset;
        let ghost before = chunks@;
        while offset < size && extent[offset] != LINE_FEED
            invariant
                size == extent@.len(),
                from <= offset <= size,
                line_end(extent@, offset as int) == line_end(extent@, from as int),
            decreases size - offset,
        {
            offset += 1;
        }
        let end = if offset < size {
            offset + 1
        } else {
            size
        };
        chunks.push(&extent[base..end]);
        proof {
            assert(chunks@.drop_last() =~= before);
            lemma_pushed(extent@, before, chunks@, base as int, end as int);
            if offset < size {
                lemma_next_line_at_end(extent@, size - 1);
                if share > size - (offset + 1) {
                    lemma_next_line_at_end(extent@, offset + share);
                }
            } else {
                lemma_next_line_at_end(extent@, size as int);
                lemma_next_line_at_end(extent@, size - 1 + share);
            }
        }
        base = end;
        let room = size - base;
        offset = if offset < size {
            offset + if share <= room {
                share
            } else {
                room
            }
        } else {
            size
        };
        k += 1;
    }
    let ghost before = chunks@;
    chunks.push(&extent[base..size]);
    proof {
        assert(chunks@.drop_last() =~= before);
        lemma_pushed(extent@, before, chunks@, base as int, size as int);
        assert(extent@.take(size as int) =~= extent@);
    }
    chunks
}

} // verus!
