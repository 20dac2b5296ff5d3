//! The pass over one chunk of records.

use crate::hashish::Table;
use crate::parse::{lemma_reading_bounds, parse_temperature, reading};
use crate::probing::{
    advances, lemma_advances, lemma_lookup_at_target, lemma_same_layout_probes, reaches,
    same_layout, target,
};
use crate::records::{records, scan, separator_at, summarize, SEPARATOR};
use crate::stat::{Stat, Summary};
use vstd::prelude::*;
use vstd::string::StringSliceAdditionalSpecFns;
use vstd::utf8::{encode_utf8_decode_utf8, valid_utf8};

verus! {

/// The number of slots in the table of a pass.
pub const SLOTS: usize = 14813;

/// The table of one pass: a statistic for each name.
pub type StatTable<'a> = Table<SLOTS, &'a str, Stat>;

/// Why a pass or a merge stopped early.
#[derive(Copy, Clone, Debug, PartialEq, Eq, Structural)]
pub enum AggregateError {
    /// A name is not followed by a value and a line feed.
    Malformed,
    /// A name is not UTF-8.
    InvalidKey,
    /// The table cannot take a name: its probe finds neither the name nor
    /// an empty slot, or the collision count is at its limit.
    Full,
    /// A statistic cannot take a value: its number of values or its sum is
    /// at its limit.
    Overflow,
}

/// The statistics of a table as mathematical values.
pub open spec fn summaries(m: Map<Seq<char>, Stat>) -> Map<Seq<char>, Summary> {
    m.map_values(|s: Stat| s@)
}

/// Whether a table with these slots and this collision count can take
/// `name`: the probe of the name stops, and the count has room for its
/// advances.
pub open spec fn admits(slots: Seq<Option<(&str, Stat)>>, collisions: nat, name: &str) -> bool {
    &&& reaches(slots, name@)
    &&& collisions + advances(slots, name@) <= usize::MAX
}

/// The pair on which a step for `name` works: the one in the slot at which
/// the probe of the name stops, or `name` with a blank statistic where that
/// slot is empty.
pub open spec fn pair_for<'a>(slots: Seq<Option<(&'a str, Stat)>>, name: &'a str) -> (
    &'a str,
    Stat,
) {
    match slots[target(slots, name@)] {
        Some(pair) => pair,
        None => (name, Stat::blank()),
    }
}

/// The slots and the collision count that a step for `name` leaves where
/// the table takes the name and its statistic does not take what it is
/// given: the name is in its slot, with the statistic it had or with a
/// blank one, and the advances of its probe are counted.
pub open spec fn left_at<'a>(
    slots: Seq<Option<(&'a str, Stat)>>,
    collisions: nat,
    name: &'a str,
) -> (Seq<Option<(&'a str, Stat)>>, nat) {
    (
        slots.update(target(slots, name@), Some(pair_for(slots, name))),
        collisions + advances(slots, name@),
    )
}

/// The slots and the collision count after a value seen under `name` was
/// taken in, or the reason why it cannot be.
pub open spec fn took<'a>(
    slots: Seq<Option<(&'a str, Stat)>>,
    collisions: nat,
    name: &'a str,
    tenths: int,
) -> Result<(Seq<Option<(&'a str, Stat)>>, nat), AggregateError> {
    let (key, stat) = pair_for(slots, name);
    if !admits(slots, collisions, name) {
        Err(AggregateError::Full)
    } else if !stat.fits(tenths) {
        Err(AggregateError::Overflow)
    } else {
        Ok(
            (
                slots.update(target(slots, name@), Some((key, stat.seen(tenths)))),
                collisions + advances(slots, name@),
            ),
        )
    }
}

/// Some name with the given characters.
pub open spec fn name_of(chars: Seq<char>) -> &'static str {
    choose|name: &'static str| name@ == chars
}

/// The slots and the collision count of a new table after the records were
/// taken in, first to last, or the reason why the first of them that
/// cannot be taken in cannot.
pub open spec fn tally(rs: Seq<(Seq<char>, int)>) -> Result<
    (Seq<Option<(&'static str, Stat)>>, nat),
    AggregateError,
>
    decreases rs.len(),
{
    if rs.len() == 0 {
        Ok((Seq::new(SLOTS as nat, |i: int| None), 0))
    } else {
        match tally(rs.drop_last()) {
            Ok((slots, collisions)) => took(
                slots,
                collisions,
                name_of(rs.last().0),
                rs.last().1,
            ),
            Err(e) => Err(e),
        }
    }
}

/// What a pass over `chunk` comes to: the slots and the collision count of
/// its table, up to which of several equal names a slot holds, or the
/// reason why it fails. A record that cannot be taken in fails the pass
/// before a flaw behind it does.
pub open spec fn pass_over(chunk: Seq<u8>) -> Result<
    (Seq<Option<(&'static str, Stat)>>, nat),
    AggregateError,
> {
    match (tally(records(chunk)), scan(chunk).1) {
        (Ok(state), None) => Ok(state),
        (Ok(_), Some(flaw)) => Err(flaw),
        (Err(e), _) => Err(e),
    }
}

/// `std::str::from_utf8`: the string slice over `bytes` where they are
/// valid UTF-8, and `None` where they are not.
#[verifier::external_body]
fn text_of<'a>(bytes: &'a [u8]) -> (r: Option<&'a str>)
    ensures
        r is Some <==> valid_utf8(bytes@),
        r is Some ==> r.unwrap().spec_bytes() == bytes@,
{
    std::str::from_utf8(bytes).ok()
}

/// What one pass makes of its chunk. The table is kept on the heap: with
/// its `SLOTS` slots it is too large to be handed about on a stack.
#[derive(Debug)]
pub struct StatChunk<'a> {
    pub data: Box<StatTable<'a>>,
}

impl<'a> StatChunk<'a> {
    /// A pass that has seen no record: its table is empty.
    pub fn new() -> (pass: Self)
        ensures
            pass.data.wf(),
            pass.data.slots() == Seq::new(SLOTS as nat, |i: int| None::<(&'a str, Stat)>),
            pass.data@ == Map::<Seq<char>, Stat>::empty(),
            pass.data.collisions() == 0,
    {
        StatChunk { data: Box::new(Table::new()) }
    }

    /// The statistic that the table holds for `name`, or the blank one
    /// where it holds none.
    pub open spec fn held(self, name: Seq<char>) -> Stat {
        if self.data@.contains_key(name) {
            self.data@[name]
        } else {
            Stat::blank()
        }
    }

    /// Takes in one value seen under `name`.
    ///
    /// The value goes into the statistic of the name, which is made first
    /// where the table has none. Where the table cannot take the name,
    /// nothing is changed. Where the statistic cannot take the value, the
    /// name is in the table afterwards and its statistic is as it was.
    pub fn record(&mut self, name: &'a str, tenths: i32) -> (r: Result<(), AggregateError>)
        requires
            old(self).data.wf(),
        ensures
            final(self).data.wf(),
            match took(old(self).data.slots(), old(self).data.collisions(), name, tenths as int) {
                Ok((slots, collisions)) => {
                    &&& r is Ok
                    &&& final(self).data.slots() == slots
                    &&& final(self).data.collisions() == collisions
                    &&& final(self).data@ == old(self).data@.insert(
                        name@,
                        old(self).held(name@).seen(tenths as int),
                    )
                },
                Err(e) => r == Err::<(), _>(e),
            },
            r == Err::<(), _>(AggregateError::Full) ==> *final(self) == *old(self),
            r == Err::<(), _>(AggregateError::Overflow) ==> {
                &&& (final(self).data.slots(), final(self).data.collisions()) == left_at(
                    old(self).data.slots(),
                    old(self).data.collisions(),
                    name,
                )
                &&& final(self).data@ == old(self).data@.insert(name@, old(self).held(name@))
            },
    {
        proof {
            if reaches(self.data.slots(), name@) {
                lemma_lookup_at_target(self.data.slots(), name@);
            }
        }
        match self.data.try_emplace(name) {
            None => Err(AggregateError::Full),
            Some(stat) => {
                if stat.try_add(tenths) {
                    Ok(())
                } else {
                    Err(AggregateError::Overflow)
                }
            },
        }
    }
}

impl<'a> Default for StatChunk<'a> {
    /// A pass as `new` makes it.
    fn default() -> (pass: Self)
        ensures
            pass.data.wf(),
            pass.data@ == Map::<Seq<char>, Stat>::empty(),
            pass.data.collisions() == 0,
    {
        StatChunk::new()
    }
}

/// The statistics after one more step are those before it with the one
/// statistic replaced.
pub proof fn lemma_summaries_insert(m: Map<Seq<char>, Stat>, name: Seq<char>, stat: Stat)
    ensures
        summaries(m.insert(name, stat)) == summaries(m).insert(name, stat@),
        summaries(m).contains_key(name) == m.contains_key(name),
        m.contains_key(name) ==> summaries(m)[name] == m[name]@,
{
    assert(summaries(m.insert(name, stat)) =~= summaries(m).insert(name, stat@));
}

/// Once a record cannot be taken in, the records behind it change nothing.
proof fn lemma_tally_fails_on(rs: Seq<(Seq<char>, int)>, more: Seq<(Seq<char>, int)>)
    requires
        tally(rs) is Err,
    ensures
        tally(rs + more) == tally(rs),
    decreases more.len(),
{
    if more.len() == 0 {
        assert(rs + more =~= rs);
    } else {
        lemma_tally_fails_on(rs, more.drop_last());
        assert((rs + more).drop_last() =~= rs + more.drop_last());
    }
}

/// A step does the same to two tables that hold the same, whichever of two
/// equal names it is made for.
proof fn lemma_took_same_layout<'a>(
    a: Seq<Option<(&'a str, Stat)>>,
    b: Seq<Option<(&'a str, Stat)>>,
    collisions: nat,
    name: &'a str,
    other: &'a str,
    tenths: int,
)
    requires
        same_layout(a, b),
        name@ == other@,
    ensures
        match (took(a, collisions, name, tenths), took(b, collisions, other, tenths)) {
            (Ok(x), Ok(y)) => same_layout(x.0, y.0) && x.1 == y.1,
            (Err(e), Err(f)) => e == f,
            _ => false,
        },
{
    lemma_same_layout_probes(a, b, name@);
    if reaches(a, name@) {
        lemma_advances(a, name@);
        assert(a[target(a, name@)] is Some == b[target(a, name@)] is Some);
    }
}

/// Makes one pass over `chunk`: every record's value is taken into the
/// statistic of the record's name, in a table of its own.
///
/// The pass ends where no separator is left. It fails at the first record
/// whose name is not UTF-8, whose value is malformed, or that the table or
/// the statistic of its name cannot take.
pub fn aggregate_chunk<'a>(chunk: &'a [u8]) -> (r: Result<StatChunk<'a>, AggregateError>)
    ensures
        match r {
            Ok(pass) => {
                &&& pass_over(chunk@) is Ok
                &&& same_layout(pass.data.slots(), pass_over(chunk@).unwrap().0)
                &&& pass.data.collisions() == pass_over(chunk@).unwrap().1
                &&& pass.data.wf()
                &&& summaries(pass.data@) == summarize(records(chunk@))
            },
            Err(e) => pass_over(chunk@) == Err::<(Seq<Option<(&'static str, Stat)>>, nat), _>(e),
        },
{
    let mut pass = StatChunk::new();
    let mut cursor: &'a [u8] = chunk;
    let ghost mut done: Seq<(Seq<char>, int)> = Seq::empty();
    let ghost mut shadow: (Seq<Option<(&'static str, Stat)>>, nat) = tally(done).unwrap();
    proof {
        assert(done + scan(chunk@).0 =~= scan(chunk@).0);
        assert(summaries(pass.data@) =~= summarize(done));
    }
    loop
        invariant
            pass.data.wf(),
            same_layout(pass.data.slots(), shadow.0),
            pass.data.collisions() == shadow.1,
            tally(done) == Ok::<_, AggregateError>(shadow),
            summaries(pass.data@) == summarize(done),
            scan(chunk@) == (done + scan(cursor@).0, scan(cursor@).1),
        decreases cursor@.len(),
    {
        let mut at: usize = 0;
        while at < cursor.len() && cursor[at] != SEPARATOR
            invariant
                at <= cursor@.len(),
                separator_at(cursor@, at as int) == separator_at(cursor@, 0),
            decreases cursor@.len() - at,
        {
            at += 1;
        }
        if at >= cursor.len() {
            proof {
                assert(done + Seq::<(Seq<char>, int)>::empty() =~= done);
            }
            return Ok(pass);
        }
        let name = match text_of(&cursor[0..at]) {
            Some(text) => text,
            None => {
                proof {
                    assert(done + Seq::<(Seq<char>, int)>::empty() =~= done);
                }
                return Err(AggregateError::InvalidKey);
            },
        };
        let (tenths, remains) = match parse_temperature(&cursor[at + 1..cursor.len()]) {
            Some(value) => value,
            None => {
                proof {
                    assert(done + Seq::<(Seq<char>, int)>::empty() =~= done);
                }
                return Err(AggregateError::Malformed);
            },
        };
        let ghost before = pass.data@;
        let ghost rec = (name@, tenths as int);
        let ghost rest = scan(remains@);
        proof {
            let value = reading(cursor@.skip(at + 1));
            lemma_reading_bounds(cursor@.skip(at + 1));
            encode_utf8_decode_utf8(name@);
            assert(cursor@.skip(at + 1).skip(value.unwrap().1) =~= cursor@.skip(
                at + 1 + value.unwrap().1,
            ));
            assert(scan(cursor@) == (seq![rec] + rest.0, rest.1));
            assert(done + (seq![rec] + rest.0) =~= done.push(rec) + rest.0);
            assert(done.push(rec).drop_last() =~= done);
            lemma_took_same_layout(
                pass.data.slots(),
                shadow.0,
                shadow.1,
                name,
                name_of(name@),
                tenths as int,
            );
        }
        match pass.record(name, tenths) {
            Ok(()) => {},
            Err(e) => {
                proof {
                    lemma_tally_fails_on(done.push(rec), rest.0);
                }
                return Err(e);
            },
        }
        proof {
            lemma_summaries_insert(before, name@, pass.held(name@));
            shadow = tally(done.push(rec)).unwrap();
            done = done.push(rec);
        }
        cursor = remains;
    }
}

} // verus!
