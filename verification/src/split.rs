//! Why an extent of lines can be split behind any of its line feeds: the
//! pieces are read as the records that the whole is read as.

use crate::aggregate::{summaries, StatChunk};
use crate::chunk::{
    between_lines, joined, lemma_joined_prefix, lemma_joined_step, lemma_slice_of_partition,
    partitions, start_of, LINE_FEED,
};
use crate::merge::{lemma_summarize_concat, merge_maps, merged_maps};
use crate::parse::{lemma_reading_bounds, reading};
use crate::records::{
    lemma_scan_concat, records, scan, separator_at, summarize, whole, SEPARATOR,
};
use crate::stat::Summary;
use vstd::prelude::*;
use vstd::utf8::valid_utf8;

verus! {

/// Whether `cursor` is lines from its first byte to its last: records with
/// no flaw, each on a line of its own, and nothing behind the last.
pub open spec fn lines(cursor: Seq<u8>) -> bool
    decreases cursor.len(),
{
    let at = separator_at(cursor, 0);
    let value = reading(cursor.skip(at + 1));
    cursor.len() == 0 || {
        &&& 0 <= at < cursor.len()
        &&& valid_utf8(cursor.take(at))
        &&& forall|i: int| 0 <= i < at ==> cursor[i] != LINE_FEED
        &&& value is Some
        &&& lines(cursor.skip(at + 1 + value.unwrap().1))
    }
}

/// The statistics of the first `n` slices taken together.
pub open spec fn slice_maps(slices: Seq<&[u8]>, n: nat) -> Map<Seq<char>, Summary>
    decreases n,
{
    if n == 0 {
        Map::empty()
    } else {
        merge_maps(
            slice_maps(slices, (n - 1) as nat),
            summarize(records(slices[n - 1]@)),
        )
    }
}

/// Lines are whole.
pub proof fn lemma_lines_are_whole(cursor: Seq<u8>)
    requires
        lines(cursor),
    ensures
        whole(cursor),
        scan(cursor).1 is None,
    decreases cursor.len(),
{
    if cursor.len() > 0 {
        let at = separator_at(cursor, 0);
        let value = reading(cursor.skip(at + 1));
        lemma_reading_bounds(cursor.skip(at + 1));
        lemma_lines_are_whole(cursor.skip(at + 1 + value.unwrap().1));
    }
}

/// A separator that is found before `k` is found at the same place in the
/// first `k` bytes.
proof fn lemma_separator_in_take(cursor: Seq<u8>, k: int, from: int)
    requires
        0 <= from,
        separator_at(cursor, from) < k <= cursor.len(),
    ensures
        from <= separator_at(cursor, from),
        separator_at(cursor.take(k), from) == separator_at(cursor, from),
        forall|i: int| from <= i < separator_at(cursor, from) ==> cursor[i] != SEPARATOR,
        cursor[separator_at(cursor, from)] == SEPARATOR,
    decreases cursor.len() - from,
{
    if from < cursor.len() {
        if cursor[from] != SEPARATOR {
            lemma_separator_in_take(cursor, k, from + 1);
        }
        assert(cursor.take(k)[from] == cursor[from]);
    }
}

/// Lines can be split behind any of their line feeds: what stands before
/// the split and what stands behind it are lines.
pub proof fn lemma_lines_split(cursor: Seq<u8>, at: int)
    requires
        lines(cursor),
        0 <= at <= cursor.len(),
        at == 0 || cursor[at - 1] == LINE_FEED,
    ensures
        lines(cursor.take(at)),
        lines(cursor.skip(at)),
    decreases cursor.len(),
{
    if at == 0 {
        assert(cursor.skip(0) =~= cursor);
    } else {
        let sep = separator_at(cursor, 0);
        let tail = cursor.skip(sep + 1);
        let value = reading(tail);
        let taken = sep + 1 + value.unwrap().1;
        let rest = cursor.skip(taken);
        lemma_reading_bounds(tail);
        lemma_separator_in_take(cursor, cursor.len() as int, 0);
        assert(at >= taken) by {
            if at < taken {
                if at - 1 > sep {
                    assert(cursor[at - 1] == tail[at - 1 - (sep + 1)]);
                }
            }
        }
        assert(rest[at - taken - 1] == cursor[at - 1] || at == taken);
        lemma_lines_split(rest, at - taken);
        assert(rest.skip(at - taken) =~= cursor.skip(at));
        let head = cursor.take(at);
        lemma_separator_in_take(cursor, at, 0);
        assert(head.take(sep) =~= cursor.take(sep));
        assert(head.skip(sep + 1) =~= tail.take(at - (sep + 1)));
        assert(tail.take(at - (sep + 1)) + tail.skip(at - (sep + 1)) =~= tail);
        lemma_reading_take(tail, at - (sep + 1));
        assert(head.skip(taken) =~= rest.take(at - taken));
    }
}

/// A value that `image` begins with within its first `k` bytes is the value
/// that those bytes begin with.
proof fn lemma_reading_take(image: Seq<u8>, k: int)
    requires
        reading(image) is Some,
        reading(image).unwrap().1 <= k <= image.len(),
    ensures
        reading(image.take(k)) == reading(image),
{
    lemma_reading_bounds(image);
    assert forall|i: int| 0 <= i < k implies image.take(k)[i] == image[i] by {}
    if image[0] == crate::parse::MINUS {
        assert forall|i: int| 0 <= i < k - 1 implies image.take(k).skip(1)[i] == image.skip(1)[i] by {}
    }
}

/// Lines that are not empty end with a line feed.
pub proof fn lemma_lines_end(cursor: Seq<u8>)
    requires
        lines(cursor),
        cursor.len() > 0,
    ensures
        cursor.last() == LINE_FEED,
    decreases cursor.len(),
{
    let sep = separator_at(cursor, 0);
    let tail = cursor.skip(sep + 1);
    let taken = sep + 1 + reading(tail).unwrap().1;
    lemma_reading_bounds(tail);
    if taken < cursor.len() {
        lemma_lines_end(cursor.skip(taken));
    } else {
        assert(cursor.last() == tail[reading(tail).unwrap().1 - 1]);
    }
}

/// Every slice of a partition of lines is lines, and so are the slices
/// before it, one after the other.
pub proof fn lemma_slices_are_lines(extent: Seq<u8>, slices: Seq<&[u8]>, k: int)
    requires
        lines(extent),
        partitions(extent, slices),
        0 <= k < slices.len(),
    ensures
        lines(joined(slices.take(k))),
        lines(slices[k]@),
{
    let from = start_of(slices, k);
    let to = start_of(slices, k + 1);
    lemma_slice_of_partition(extent, slices, k);
    lemma_joined_prefix(slices, k);
    assert(between_lines(extent, from));
    assert(between_lines(extent, to));
    if extent.len() > 0 {
        lemma_lines_end(extent);
    }
    lemma_lines_split(extent, from);
    lemma_lines_split(extent, to);
    lemma_lines_split(extent.take(to), from);
    assert(extent.take(to).skip(from) =~= slices[k]@);
}

/// Passes over the first slices of a partition of lines, merged, amount to
/// one pass over those slices one after the other; passes over all of
/// them, to one pass over the extent.
pub proof fn lemma_slices_amount_to_one_pass(extent: Seq<u8>, slices: Seq<&[u8]>, n: nat)
    requires
        lines(extent),
        partitions(extent, slices),
        n <= slices.len(),
    ensures
        slice_maps(slices, n) == summarize(records(joined(slices.take(n as int)))),
        n == slices.len() ==> slice_maps(slices, n) == summarize(records(extent)),
    decreases n,
{
    if n == 0 {
        assert(joined(slices.take(0)).len() == 0);
    } else {
        let k = n - 1;
        lemma_slices_amount_to_one_pass(extent, slices, k as nat);
        lemma_slices_are_lines(extent, slices, k);
        lemma_lines_are_whole(joined(slices.take(k)));
        lemma_joined_step(slices, k);
        lemma_scan_concat(joined(slices.take(k)), slices[k]@);
        lemma_summarize_concat(records(joined(slices.take(k))), records(slices[k]@));
    }
    assert(slices.take(slices.len() as int) =~= slices);
}

/// The whole run on an extent of lines: where the slices are a partition
/// of the extent and each pass holds the statistics of the records of its
/// slice, the passes taken together hold the statistics of the records of
/// the extent.
pub proof fn lemma_passes_amount_to_one_pass(
    extent: Seq<u8>,
    slices: Seq<&[u8]>,
    passes: Seq<StatChunk>,
)
    requires
        lines(extent),
        partitions(extent, slices),
        passes.len() == slices.len(),
        forall|k: int|
            0 <= k < passes.len() ==> summaries((#[trigger] passes[k]).data@) == summarize(
                records(slices[k]@),
            ),
    ensures
        merged_maps(passes) == summarize(records(extent)),
{
    lemma_passes_are_slice_maps(slices, passes, passes.len());
    assert(passes.take(passes.len() as int) =~= passes);
    lemma_slices_amount_to_one_pass(extent, slices, slices.len());
}

/// Passes that hold the statistics of the slices, taken together, hold the
/// statistics of the slices taken together.
proof fn lemma_passes_are_slice_maps(slices: Seq<&[u8]>, passes: Seq<StatChunk>, n: nat)
    requires
        n <= passes.len() <= slices.len(),
        forall|k: int|
            0 <= k < passes.len() ==> summaries((#[trigger] passes[k]).data@) == summarize(
                records(slices[k]@),
            ),
    ensures
        merged_maps(passes.take(n as int)) == slice_maps(slices, n),
    decreases n,
{
    if n > 0 {
        let first = passes.take(n as int);
        lemma_passes_are_slice_maps(slices, passes, (n - 1) as nat);
        assert(first.drop_last() =~= passes.take(n - 1));
        assert(first.last() == passes[n - 1]);
    }
}

} // verus!
