//! The merge of passes into one.

use crate::aggregate::{
    admits, left_at, lemma_summaries_insert, pair_for, summaries, AggregateError, StatChunk,
};
use crate::probing::{
    advances, as_map, entries, lemma_entries_list_map, lemma_lookup_at_target, reaches, target,
    well_placed,
};
use crate::records::{summarize, summary_of};
use crate::stat::{lemma_merge_nothing, merge, nothing, observe, Stat, Summary};
use vstd::prelude::*;

verus! {

/// The statistics of two passes taken together: every name of either, with
/// its two statistics merged, that of no value standing in where a pass
/// has not seen the name.
pub open spec fn merge_maps(a: Map<Seq<char>, Summary>, b: Map<Seq<char>, Summary>) -> Map<
    Seq<char>,
    Summary,
> {
    Map::new(
        |name: Seq<char>| a.contains_key(name) || b.contains_key(name),
        |name: Seq<char>| merge(summary_of(a, name), summary_of(b, name)),
    )
}

/// The slots and the collision count after a statistic kept elsewhere
/// under `name` was taken in, or the reason why it cannot be.
pub open spec fn absorbed<'a>(
    slots: Seq<Option<(&'a str, Stat)>>,
    collisions: nat,
    name: &'a str,
    rhs: Stat,
) -> Result<(Seq<Option<(&'a str, Stat)>>, nat), AggregateError> {
    let (key, stat) = pair_for(slots, name);
    if !admits(slots, collisions, name) {
        Err(AggregateError::Full)
    } else if !stat.fits_with(rhs) {
        Err(AggregateError::Overflow)
    } else {
        Ok(
            (
                slots.update(target(slots, name@), Some((key, stat.joined(rhs)))),
                collisions + advances(slots, name@),
            ),
        )
    }
}

/// The slots and the collision count after the pairs were taken in, first
/// to last, or the reason why the first of them that cannot be taken in
/// cannot.
pub open spec fn absorbed_all<'a>(
    slots: Seq<Option<(&'a str, Stat)>>,
    collisions: nat,
    pairs: Seq<(&'a str, Stat)>,
) -> Result<(Seq<Option<(&'a str, Stat)>>, nat), AggregateError>
    decreases pairs.len(),
{
    if pairs.len() == 0 {
        Ok((slots, collisions))
    } else {
        match absorbed_all(slots, collisions, pairs.drop_last()) {
            Ok((so_far, count)) => absorbed(so_far, count, pairs.last().0, pairs.last().1),
            Err(e) => Err(e),
        }
    }
}

/// The slots and the collision count that a merge leaves which takes in the
/// first `n` pairs and cannot take in the next: where the table cannot take
/// the name, what the first `n` made of it; where the statistic cannot take
/// the values, that with the name in its slot.
pub open spec fn stopped_at<'a>(
    slots: Seq<Option<(&'a str, Stat)>>,
    collisions: nat,
    pairs: Seq<(&'a str, Stat)>,
    n: int,
) -> (Seq<Option<(&'a str, Stat)>>, nat) {
    let (so_far, count) = absorbed_all(slots, collisions, pairs.take(n)).unwrap();
    if absorbed(so_far, count, pairs[n].0, pairs[n].1) == Err::<
        (Seq<Option<(&'a str, Stat)>>, nat),
        _,
    >(AggregateError::Overflow) {
        left_at(so_far, count, pairs[n].0)
    } else {
        (so_far, count)
    }
}

/// The slots and the collision count after the passes were merged, each
/// into the first: `None` where there is no pass, and the reason why the
/// first statistic that cannot be taken in cannot.
pub open spec fn merged_all<'a>(passes: Seq<StatChunk<'a>>) -> Result<
    Option<(Seq<Option<(&'a str, Stat)>>, nat)>,
    AggregateError,
>
    decreases passes.len(),
{
    if passes.len() == 0 {
        Ok(None)
    } else {
        let last = passes.last().data;
        match merged_all(passes.drop_last()) {
            Ok(None) => Ok(Some((last.slots(), last.collisions()))),
            Ok(Some((slots, collisions))) => match absorbed_all(
                slots,
                collisions,
                entries(last.slots()),
            ) {
                Ok(state) => Ok(Some(state)),
                Err(e) => Err(e),
            },
            Err(e) => Err(e),
        }
    }
}

/// The statistics of all the passes taken together.
pub open spec fn merged_maps(passes: Seq<StatChunk>) -> Map<Seq<char>, Summary>
    decreases passes.len(),
{
    if passes.len() == 0 {
        Map::empty()
    } else {
        merge_maps(merged_maps(passes.drop_last()), summaries(passes.last().data@))
    }
}

/// What one more value does to a statistic that was merged, it does to the
/// second of the two that were merged.
pub proof fn lemma_observe_merged(a: Summary, b: Summary, x: int)
    ensures
        observe(merge(a, b), x) == merge(a, observe(b, x)),
{
}

/// A statistic of records is not changed by merging with that of no
/// value.
pub proof fn lemma_summarize_keeps(rs: Seq<(Seq<char>, int)>, name: Seq<char>)
    requires
        summarize(rs).contains_key(name),
    ensures
        merge(summarize(rs)[name], nothing()) == summarize(rs)[name],
        merge(nothing(), summarize(rs)[name]) == summarize(rs)[name],
    decreases rs.len(),
{
    if rs.len() > 0 && summarize(rs.drop_last()).contains_key(name) {
        lemma_summarize_keeps(rs.drop_last(), name);
    }
}

/// Records read one after the other amount to their statistics taken
/// together: a pass over two runs of records gives what the merge of a pass
/// over each gives.
pub proof fn lemma_summarize_concat(first: Seq<(Seq<char>, int)>, second: Seq<(Seq<char>, int)>)
    ensures
        summarize(first + second) == merge_maps(summarize(first), summarize(second)),
    decreases second.len(),
{
    let ours = summarize(first);
    if second.len() == 0 {
        assert(first + second =~= first);
        assert forall|name: Seq<char>| ours.contains_key(name) implies merge(
            #[trigger] ours[name],
            nothing(),
        ) == ours[name] by {
            lemma_summarize_keeps(first, name);
        }
        assert(merge_maps(ours, summarize(second)) =~= ours);
    } else {
        let earlier = second.drop_last();
        let (name, x) = second.last();
        let theirs = summarize(earlier);
        lemma_summarize_concat(first, earlier);
        assert((first + second).drop_last() =~= first + earlier);
        assert((first + second).last() == second.last());
        lemma_observe_merged(summary_of(ours, name), summary_of(theirs, name), x);
        assert(summarize(first + second) =~= merge_maps(ours, summarize(second)));
    }
}

/// Taking two passes together does not depend on their order.
pub proof fn lemma_merge_maps_commutes(a: Map<Seq<char>, Summary>, b: Map<Seq<char>, Summary>)
    ensures
        merge_maps(a, b) == merge_maps(b, a),
{
    assert(merge_maps(a, b) =~= merge_maps(b, a));
}

/// Taking three passes together does not depend on which two are taken
/// together first.
pub proof fn lemma_merge_maps_associates(
    a: Map<Seq<char>, Summary>,
    b: Map<Seq<char>, Summary>,
    c: Map<Seq<char>, Summary>,
)
    ensures
        merge_maps(merge_maps(a, b), c) == merge_maps(a, merge_maps(b, c)),
{
    assert(merge_maps(merge_maps(a, b), c) =~= merge_maps(a, merge_maps(b, c)));
}

impl<'a> StatChunk<'a> {
    /// Takes in a statistic kept elsewhere under `name`.
    ///
    /// It is merged into the statistic of the name, which is made first
    /// where the table has none. Where the table cannot take the name,
    /// nothing is changed. Where the statistic cannot take the values, the
    /// name is in the table afterwards and its statistic is as it was.
    pub fn absorb(&mut self, name: &'a str, stat: &Stat) -> (r: Result<(), AggregateError>)
        requires
            old(self).data.wf(),
        ensures
            final(self).data.wf(),
            match absorbed(old(self).data.slots(), old(self).data.collisions(), name, *stat) {
                Ok((slots, collisions)) => {
                    &&& r is Ok
                    &&& final(self).data.slots() == slots
                    &&& final(self).data.collisions() == collisions
                    &&& final(self).data@ == old(self).data@.insert(
                        name@,
                        old(self).held(name@).joined(*stat),
                    )
                },
                Err(e) => r == Err::<(), _>(e),
            },
            r == Err::<(), _>(AggregateError::Full) ==> *final(self) == *old(self),
            r == Err::<(), _>(AggregateError::Overflow) ==> {
                &&& (final(self).data.slots(), final(self).data.collisions()) == left_at(
                    old(self).data.slots(),
                    old(self).data.collisions(),
                    name,
                )
                &&& final(self).data@ == old(self).data@.insert(name@, old(self).held(name@))
            },
    {
        proof {
            if reaches(self.data.slots(), name@) {
                lemma_lookup_at_target(self.data.slots(), name@);
            }
        }
        match self.data.try_emplace(name) {
            None => Err(AggregateError::Full),
            Some(mine) => {
                if mine.try_merge_with(stat) {
                    Ok(())
                } else {
                    Err(AggregateError::Overflow)
                }
            },
        }
    }

    /// Takes in all that another pass has found.
    ///
    /// Every statistic of `other` is merged into the statistic that this
    /// pass keeps under the same name, in the storage order of `other`. The
    /// merge fails at the first name that the table or its statistic cannot
    /// take, and then holds what was merged until there: see `stopped_at`.
    pub fn merge_with(&mut self, other: StatChunk<'a>) -> (r: Result<(), AggregateError>)
        requires
            old(self).data.wf(),
            other.data.wf(),
        ensures
            final(self).data.wf(),
            match absorbed_all(
                old(self).data.slots(),
                old(self).data.collisions(),
                entries(other.data.slots()),
            ) {
                Ok((slots, collisions)) => {
                    &&& r is Ok
                    &&& final(self).data.slots() == slots
                    &&& final(self).data.collisions() == collisions
                    &&& summaries(final(self).data@) == merge_maps(
                        summaries(old(self).data@),
                        summaries(other.data@),
                    )
                },
                Err(e) => {
                    &&& r == Err::<(), _>(e)
                    &&& exists|n: int|
                        #![trigger entries(other.data.slots()).take(n)]
                        {
                            &&& 0 <= n < entries(other.data.slots()).len()
                            &&& absorbed_all(
                                old(self).data.slots(),
                                old(self).data.collisions(),
                                entries(other.data.slots()).take(n),
                            ) is Ok
                            &&& (final(self).data.slots(), final(self).data.collisions())
                                == stopped_at(
                                old(self).data.slots(),
                                old(self).data.collisions(),
                                entries(other.data.slots()),
                                n,
                            )
                        }
                },
            },
    {
        let ghost all = entries(other.data.slots());
        let ghost mut taken: Seq<(&str, Stat)> = Seq::empty();
        let mut it = other.data.iter();
        proof {
            assert(taken + it.remaining() =~= all);
        }
        loop
            invariant
                self.data.wf(),
                other.data.wf(),
                all == entries(other.data.slots()),
                taken + it.remaining() == all,
                absorbed_all(old(self).data.slots(), old(self).data.collisions(), taken) == Ok::<
                    _,
                    AggregateError,
                >((self.data.slots(), self.data.collisions())),
                summaries(self.data@) == merged_in(summaries(old(self).data@), taken),
            decreases it.remaining().len(),
        {
            let ghost left = it.remaining();
            match it.next() {
                None => {
                    proof {
                        assert(taken =~= all);
                        lemma_merged_in_all(old(self).data@, other.data.slots());
                    }
                    return Ok(());
                },
                Some((name, stat)) => {
                    let ghost before = self.data@;
                    let ghost next = taken.push((name, stat));
                    proof {
                        assert(all[taken.len() as int] == left[0]);
                        assert(next.drop_last() =~= taken);
                        assert(next + it.remaining() =~= all);
                    }
                    match self.absorb(name, &stat) {
                        Ok(()) => {},
                        Err(e) => {
                            proof {
                                lemma_absorbed_all_fails_on(
                                    old(self).data.slots(),
                                    old(self).data.collisions(),
                                    next,
                                    it.remaining(),
                                );
                                assert(all.take(taken.len() as int) =~= taken);
                            }
                            return Err(e);
                        },
                    }
                    proof {
                        lemma_summaries_insert(before, name@, self.held(name@));
                        taken = next;
                    }
                },
            }
        }
    }
}

/// Merges the passes into one: the first takes in the second, then the
/// third, and so on. There is no result where there is no pass.
pub fn merge_all<'a>(passes: Vec<StatChunk<'a>>) -> (r: Result<
    Option<StatChunk<'a>>,
    AggregateError,
>)
    requires
        forall|i: int| 0 <= i < passes@.len() ==> (#[trigger] passes@[i]).data.wf(),
    ensures
        match merged_all(passes@) {
            Ok(None) => r matches Ok(None),
            Ok(Some((slots, collisions))) => {
                &&& r matches Ok(Some(total))
                &&& total.data.wf()
                &&& total.data.slots() == slots
                &&& total.data.collisions() == collisions
                &&& summaries(total.data@) == merged_maps(passes@)
            },
            Err(e) => r matches Err(f) && e == f,
        },
{
    let mut total: Option<StatChunk<'a>> = None;
    let ghost all = passes@;
    for pass in it: passes
        invariant
            it.seq() == all,
            forall|i: int| 0 <= i < all.len() ==> (#[trigger] all[i]).data.wf(),
            match merged_all(all.take(it.index() as int)) {
                Ok(None) => total is None && it.index() == 0,
                Ok(Some((slots, collisions))) => {
                    &&& total matches Some(acc)
                    &&& acc.data.wf()
                    &&& acc.data.slots() == slots
                    &&& acc.data.collisions() == collisions
                    &&& summaries(acc.data@) == merged_maps(all.take(it.index() as int))
                },
                Err(_) => false,
            },
    {
        let ghost n = it.index() as int;
        proof {
            assert(all.take(n + 1).drop_last() =~= all.take(n));
            assert(all.take(n + 1).last() == pass);
            assert(all[n].data.wf());
        }
        total = match total {
            None => {
                proof {
                    lemma_summaries_alone(pass.data@);
                    assert(merged_maps(all.take(n)) == Map::<Seq<char>, Summary>::empty());
                    assert(merged_maps(all.take(n + 1)) == merge_maps(
                        merged_maps(all.take(n)),
                        summaries(pass.data@),
                    ));
                }
                Some(pass)
            },
            Some(acc) => {
                let mut acc = acc;
                match acc.merge_with(pass) {
                    Ok(()) => Some(acc),
                    Err(e) => {
                        proof {
                            lemma_merged_all_fails_on(all.take(n + 1), all.skip(n + 1));
                            assert(all.take(n + 1) + all.skip(n + 1) =~= all);
                        }
                        return Err(e);
                    },
                }
            },
        };
    }
    proof {
        assert(all.take(all.len() as int) =~= all);
    }
    Ok(total)
}

/// The statistics `acc` after the pairs were merged in, first to last.
spec fn merged_in(acc: Map<Seq<char>, Summary>, pairs: Seq<(&str, Stat)>) -> Map<
    Seq<char>,
    Summary,
>
    decreases pairs.len(),
{
    if pairs.len() == 0 {
        acc
    } else {
        let before = merged_in(acc, pairs.drop_last());
        let (name, stat) = pairs.last();
        before.insert(name@, merge(summary_of(before, name@), stat@))
    }
}

/// What merging pairs with different names makes of one name: the name is
/// there if it was before or a pair has it, and its statistic is the one
/// from before merged with that of its pair, if it has one.
proof fn lemma_merged_in_at(acc: Map<Seq<char>, Summary>, pairs: Seq<(&str, Stat)>, name: Seq<char>)
    requires
        forall|i: int, j: int|
            0 <= i < j < pairs.len() ==> (#[trigger] pairs[i]).0@ != (#[trigger] pairs[j]).0@,
    ensures
        merged_in(acc, pairs).contains_key(name) <==> acc.contains_key(name) || exists|i: int|
            0 <= i < pairs.len() && (#[trigger] pairs[i]).0@ == name,
        forall|i: int|
            0 <= i < pairs.len() && (#[trigger] pairs[i]).0@ == name ==> merged_in(acc, pairs)[name]
                == merge(summary_of(acc, name), pairs[i].1@),
        (forall|i: int| 0 <= i < pairs.len() ==> (#[trigger] pairs[i]).0@ != name) ==> summary_of(
            merged_in(acc, pairs),
            name,
        ) == summary_of(acc, name),
    decreases pairs.len(),
{
    if pairs.len() > 0 {
        let rest = pairs.drop_last();
        let last = pairs.len() - 1;
        assert forall|i: int| 0 <= i < rest.len() implies rest[i] == pairs[i] by {}
        lemma_merged_in_at(acc, rest, name);
        if pairs[last].0@ == name {
            assert forall|i: int| 0 <= i < rest.len() implies (#[trigger] rest[i]).0@ != name by {
                assert(pairs[i].0@ != pairs[last].0@);
            }
        } else if exists|i: int| 0 <= i < pairs.len() && (#[trigger] pairs[i]).0@ == name {
            let i = choose|i: int| 0 <= i < pairs.len() && (#[trigger] pairs[i]).0@ == name;
            assert(rest[i].0@ == name);
        }
    }
}

/// Merging in all the pairs of a well-placed table gives the statistics of
/// the two taken together.
proof fn lemma_merged_in_all(acc: Map<Seq<char>, Stat>, slots: Seq<Option<(&str, Stat)>>)
    requires
        well_placed(slots),
    ensures
        merged_in(summaries(acc), entries(slots)) == merge_maps(
            summaries(acc),
            summaries(as_map(slots)),
        ),
{
    let pairs = entries(slots);
    let ours = summaries(acc);
    let theirs = summaries(as_map(slots));
    let merged = merged_in(ours, pairs);
    lemma_entries_list_map(slots);
    assert forall|name: Seq<char>|
        (#[trigger] merged.dom().contains(name)) == merge_maps(ours, theirs).dom().contains(name)
            && (merged.dom().contains(name) ==> merged[name] == merge_maps(ours, theirs)[name]) by {
        lemma_merged_in_at(ours, pairs, name);
        if as_map(slots).contains_key(name) {
            let i = choose|i: int| 0 <= i < pairs.len() && (#[trigger] pairs[i]).0@ == name;
            assert(theirs[name] == pairs[i].1@);
        } else {
            assert forall|i: int| 0 <= i < pairs.len() implies (#[trigger] pairs[i]).0@ != name by {}
            if acc.contains_key(name) {
                lemma_merge_nothing(acc[name]);
            }
        }
    }
    assert(merged =~= merge_maps(ours, theirs));
}

/// Once a pair cannot be taken in, the pairs behind it change nothing.
proof fn lemma_absorbed_all_fails_on<'a>(
    slots: Seq<Option<(&'a str, Stat)>>,
    collisions: nat,
    pairs: Seq<(&'a str, Stat)>,
    more: Seq<(&'a str, Stat)>,
)
    requires
        absorbed_all(slots, collisions, pairs) is Err,
    ensures
        absorbed_all(slots, collisions, pairs + more) == absorbed_all(slots, collisions, pairs),
    decreases more.len(),
{
    if more.len() == 0 {
        assert(pairs + more =~= pairs);
    } else {
        lemma_absorbed_all_fails_on(slots, collisions, pairs, more.drop_last());
        assert((pairs + more).drop_last() =~= pairs + more.drop_last());
    }
}

/// One pass taken together with nothing is that pass.
proof fn lemma_summaries_alone(m: Map<Seq<char>, Stat>)
    ensures
        merge_maps(Map::empty(), summaries(m)) == summaries(m),
{
    assert forall|name: Seq<char>| m.contains_key(name) implies merge(
        nothing(),
        #[trigger] summaries(m)[name],
    ) == summaries(m)[name] by {
        lemma_merge_nothing(m[name]);
    }
    assert(merge_maps(Map::empty(), summaries(m)) =~= summaries(m));
}

/// Once a merge has failed, the passes behind it change nothing.
proof fn lemma_merged_all_fails_on<'a>(passes: Seq<StatChunk<'a>>, more: Seq<StatChunk<'a>>)
    requires
        merged_all(passes) is Err,
    ensures
        merged_all(passes + more) == merged_all(passes),
    decreases more.len(),
{
    if more.len() == 0 {
        assert(passes + more =~= passes);
    } else {
        lemma_merged_all_fails_on(passes, more.drop_last());
        assert((passes + more).drop_last() =~= passes + more.drop_last());
    }
}

} // verus!
