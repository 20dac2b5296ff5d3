//! The records of a chunk and the statistics they amount to.

use crate::aggregate::AggregateError;
use crate::parse::{lemma_reading_bounds, reading};
use crate::stat::{nothing, observe, Summary};
use vstd::prelude::*;
use vstd::utf8::{decode_utf8, valid_utf8};

verus! {

/// The byte between a name and its value.
pub const SEPARATOR: u8 = 59;

/// The first position at or after `from` that holds a separator, or the
/// length of `cursor` where none does.
pub open spec fn separator_at(cursor: Seq<u8>, from: int) -> int
    decreases cursor.len() - from,
{
    if from >= cursor.len() {
        cursor.len() as int
    } else if cursor[from] == SEPARATOR {
        from
    } else {
        separator_at(cursor, from + 1)
    }
}

/// What reading `cursor` record by record gives: the records before the
/// first flaw, and that flaw where there is one.
///
/// A record is a name, which is what stands before the next separator, and
/// the value behind that separator, in tenths. A name that is not UTF-8 and
/// a value that is malformed are flaws. The reading ends without a flaw
/// where no separator is left.
pub open spec fn scan(cursor: Seq<u8>) -> (Seq<(Seq<char>, int)>, Option<AggregateError>)
    decreases cursor.len(),
{
    let at = separator_at(cursor, 0);
    let name = cursor.take(at);
    let value = reading(cursor.skip(at + 1));
    if !(0 <= at < cursor.len()) {
        (Seq::empty(), None)
    } else if !valid_utf8(name) {
        (Seq::empty(), Some(AggregateError::InvalidKey))
    } else if value is None {
        (Seq::empty(), Some(AggregateError::Malformed))
    } else {
        let rest = scan(cursor.skip(at + 1 + value.unwrap().1));
        (seq![(decode_utf8(name), value.unwrap().0)] + rest.0, rest.1)
    }
}

/// The records of `cursor` before its first flaw.
pub open spec fn records(cursor: Seq<u8>) -> Seq<(Seq<char>, int)> {
    scan(cursor).0
}

/// The statistic of each name after the records were taken in, first to
/// last.
pub open spec fn summarize(rs: Seq<(Seq<char>, int)>) -> Map<Seq<char>, Summary>
    decreases rs.len(),
{
    if rs.len() == 0 {
        Map::empty()
    } else {
        let before = summarize(rs.drop_last());
        let (name, tenths) = rs.last();
        before.insert(name, observe(summary_of(before, name), tenths))
    }
}

/// The statistic that `m` holds for `name`, or that of no value where it
/// holds none.
pub open spec fn summary_of(m: Map<Seq<char>, Summary>, name: Seq<char>) -> Summary {
    if m.contains_key(name) {
        m[name]
    } else {
        nothing()
    }
}

/// The values of the records with the given name, first to last.
pub open spec fn values_under(rs: Seq<(Seq<char>, int)>, name: Seq<char>) -> Seq<int>
    decreases rs.len(),
{
    if rs.len() == 0 {
        Seq::empty()
    } else if rs.last().0 == name {
        values_under(rs.drop_last(), name).push(rs.last().1)
    } else {
        values_under(rs.drop_last(), name)
    }
}

/// The sum of the values.
pub open spec fn total(values: Seq<int>) -> int
    decreases values.len(),
{
    if values.len() == 0 {
        0
    } else {
        total(values.drop_last()) + values.last()
    }
}

/// Every value of a record is between -99.9 and 99.9.
pub proof fn lemma_records_in_range(cursor: Seq<u8>)
    ensures
        forall|i: int|
            0 <= i < records(cursor).len() ==> -999 <= (#[trigger] records(cursor)[i]).1 <= 999,
    decreases cursor.len(),
{
    let at = separator_at(cursor, 0);
    let value = reading(cursor.skip(at + 1));
    if 0 <= at < cursor.len() && valid_utf8(cursor.take(at)) && value is Some {
        let rest = records(cursor.skip(at + 1 + value.unwrap().1));
        lemma_reading_bounds(cursor.skip(at + 1));
        lemma_records_in_range(cursor.skip(at + 1 + value.unwrap().1));
        assert forall|i: int| 0 <= i < records(cursor).len() implies -999 <= (#[trigger] records(
            cursor,
        )[i]).1 <= 999 by {
            if i > 0 {
                assert(records(cursor)[i] == rest[i - 1]);
            }
        }
    }
}

/// What the statistics say: a name has a statistic exactly if a record has
/// the name, and the statistic then holds the number of the name's values,
/// their sum, the least and the greatest of them.
pub proof fn lemma_summarize_meaning(rs: Seq<(Seq<char>, int)>, name: Seq<char>)
    requires
        forall|i: int| 0 <= i < rs.len() ==> i32::MIN <= (#[trigger] rs[i]).1 <= i32::MAX,
    ensures
        summarize(rs).contains_key(name) <==> values_under(rs, name).len() > 0,
        summarize(rs).contains_key(name) ==> {
            let values = values_under(rs, name);
            let s = summarize(rs)[name];
            &&& s.count == values.len()
            &&& s.sum == total(values)
            &&& forall|i: int| 0 <= i < values.len() ==> s.min <= #[trigger] values[i] <= s.max
            &&& exists|i: int| 0 <= i < values.len() && #[trigger] values[i] == s.min
            &&& exists|i: int| 0 <= i < values.len() && #[trigger] values[i] == s.max
        },
    decreases rs.len(),
{
    if rs.len() > 0 {
        let before = rs.drop_last();
        assert forall|i: int| 0 <= i < before.len() implies i32::MIN <= (#[trigger] before[i]).1
            <= i32::MAX by {
            assert(before[i] == rs[i]);
        }
        lemma_summarize_meaning(before, name);
        let earlier = values_under(before, name);
        let values = values_under(rs, name);
        let s = summarize(rs)[name];
        if rs.last().0 == name {
            let x = rs.last().1;
            let last = values.len() - 1;
            assert(values.drop_last() =~= earlier);
            assert(values[last] == x);
            assert forall|i: int| 0 <= i < earlier.len() implies values[i] == earlier[i] by {}
            assert(total(values) == total(earlier) + x);
            if earlier.len() > 0 {
                let b = summarize(before)[name];
                let least = choose|i: int| 0 <= i < earlier.len() && #[trigger] earlier[i] == b.min;
                let most = choose|i: int| 0 <= i < earlier.len() && #[trigger] earlier[i] == b.max;
                assert(values[least] == b.min);
                assert(values[most] == b.max);
                assert(values[if x < b.min {
                    last
                } else {
                    least
                }] == s.min);
                assert(values[if x > b.max {
                    last
                } else {
                    most
                }] == s.max);
            } else {
                assert(total(earlier) == 0);
                assert(values[last] == s.min);
                assert(values[last] == s.max);
            }
        }
    }
}

/// Whether `cursor` is records from its first byte to its last: it has no
/// flaw, and nothing follows its last record.
pub open spec fn whole(cursor: Seq<u8>) -> bool
    decreases cursor.len(),
{
    let at = separator_at(cursor, 0);
    let value = reading(cursor.skip(at + 1));
    cursor.len() == 0 || {
        &&& 0 <= at < cursor.len()
        &&& valid_utf8(cursor.take(at))
        &&& value is Some
        &&& whole(cursor.skip(at + 1 + value.unwrap().1))
    }
}

/// A separator that is found in `a` is found at the same place in any
/// extension of `a`.
pub proof fn lemma_separator_in_prefix(a: Seq<u8>, b: Seq<u8>, from: int)
    requires
        0 <= from,
        separator_at(a, from) < a.len(),
    ensures
        separator_at(a + b, from) == separator_at(a, from),
        from <= separator_at(a, from),
    decreases a.len() - from,
{
    if from < a.len() {
        assert((a + b)[from] == a[from]);
        if a[from] != SEPARATOR {
            lemma_separator_in_prefix(a, b, from + 1);
        }
    }
}

/// A value that `a` begins with is the value that any extension of `a`
/// begins with.
pub proof fn lemma_reading_in_prefix(a: Seq<u8>, b: Seq<u8>)
    requires
        reading(a) is Some,
    ensures
        reading(a + b) == reading(a),
{
    lemma_reading_bounds(a);
    assert forall|i: int| 0 <= i < a.len() implies (a + b)[i] == a[i] by {}
    if a[0] == crate::parse::MINUS {
        assert forall|i: int| 0 <= i < a.len() - 1 implies (a + b).skip(1)[i] == a.skip(1)[i] by {}
    }
}

/// Records followed by more bytes read as those records followed by what
/// the further bytes read as.
pub proof fn lemma_scan_concat(a: Seq<u8>, b: Seq<u8>)
    requires
        whole(a),
    ensures
        scan(a + b) == (records(a) + records(b), scan(b).1),
    decreases a.len(),
{
    if a.len() == 0 {
        assert(a + b =~= b);
        assert(records(a) + records(b) =~= records(b));
    } else {
        let at = separator_at(a, 0);
        let value = reading(a.skip(at + 1));
        let taken = at + 1 + value.unwrap().1;
        lemma_separator_in_prefix(a, b, 0);
        lemma_reading_bounds(a.skip(at + 1));
        lemma_reading_in_prefix(a.skip(at + 1), b);
        assert((a + b).take(at) =~= a.take(at));
        assert((a + b).skip(at + 1) =~= a.skip(at + 1) + b);
        assert((a + b).skip(taken) =~= a.skip(taken) + b);
        lemma_scan_concat(a.skip(taken), b);
        let first = seq![(decode_utf8(a.take(at)), value.unwrap().0)];
        assert(first + (records(a.skip(taken)) + records(b)) =~= (first + records(a.skip(taken)))
            + records(b));
    }
}

} // verus!
