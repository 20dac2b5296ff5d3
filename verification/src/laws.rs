//! What holds of the table's operations taken together.

use crate::hashish::Hashed;
use crate::probing::{
    advances, as_map, lemma_advances, lemma_lookup_at_target, lemma_settle, lookup, reaches,
    target, well_placed, with_pair,
};
use vstd::prelude::*;

verus! {

/// The slots after every pair of `pairs` was inserted, first to last.
pub open spec fn insert_all<A: Hashed, B>(slots: Seq<Option<(A, B)>>, pairs: Seq<(A, B)>) -> Seq<
    Option<(A, B)>,
>
    decreases pairs.len(),
{
    if pairs.len() == 0 {
        slots
    } else {
        with_pair(insert_all(slots, pairs.drop_last()), pairs.last().0, pairs.last().1)
    }
}

/// Whether each insert of the run finds a slot: the probe of every key
/// stops in the table as the inserts before it have left it.
pub open spec fn all_reach<A: Hashed, B>(slots: Seq<Option<(A, B)>>, pairs: Seq<(A, B)>) -> bool
    decreases pairs.len(),
{
    pairs.len() == 0 || (all_reach(slots, pairs.drop_last()) && reaches(
        insert_all(slots, pairs.drop_last()),
        pairs.last().0@,
    ))
}

/// A run of inserts that all find a slot leaves the table well placed.
pub proof fn lemma_insert_all_well_placed<A: Hashed, B>(
    slots: Seq<Option<(A, B)>>,
    pairs: Seq<(A, B)>,
)
    requires
        well_placed(slots),
        all_reach(slots, pairs),
    ensures
        well_placed(insert_all(slots, pairs)),
        insert_all(slots, pairs).len() == slots.len(),
    decreases pairs.len(),
{
    if pairs.len() > 0 {
        let rest = pairs.drop_last();
        lemma_insert_all_well_placed(slots, rest);
        lemma_settle(insert_all(slots, rest), pairs.last().0, pairs.last().1);
    }
}

/// Insert and get round trip: after a run of inserts that all find a slot,
/// a key that the run holds once is looked up with the value it was
/// inserted with.
pub proof fn lemma_insert_get_round_trip<A: Hashed, B>(
    slots: Seq<Option<(A, B)>>,
    pairs: Seq<(A, B)>,
    i: int,
)
    requires
        well_placed(slots),
        all_reach(slots, pairs),
        0 <= i < pairs.len(),
        forall|j: int| 0 <= j < pairs.len() && j != i ==> pairs[j].0@ != pairs[i].0@,
    ensures
        lookup(insert_all(slots, pairs), pairs[i].0@) == Some(pairs[i].1),
    decreases pairs.len(),
{
    let rest = pairs.drop_last();
    let last = pairs.last();
    lemma_insert_all_well_placed(slots, rest);
    lemma_settle(insert_all(slots, rest), last.0, last.1);
    if i < pairs.len() - 1 {
        assert(rest[i] == pairs[i]);
        lemma_insert_get_round_trip(slots, rest, i);
    }
}

/// Overwrite: a second insert under an equal key writes to the slot of the
/// first. The table is as if only the second had been made, no further slot
/// is taken, and the key is looked up with the second value.
pub proof fn lemma_insert_overwrites<A: Hashed, B>(
    slots: Seq<Option<(A, B)>>,
    key: A,
    first: B,
    again: A,
    second: B,
)
    requires
        well_placed(slots),
        reaches(slots, key@),
        again@ == key@,
    ensures
        ({
            let once = with_pair(slots, key, first);
            let twice = with_pair(once, again, second);
            &&& reaches(once, again@)
            &&& twice == with_pair(slots, again, second)
            &&& twice == once.update(target(slots, key@), Some((again, second)))
            &&& forall|idx: int|
                0 <= idx < slots.len() ==> (#[trigger] twice[idx] is Some) == (once[idx] is Some)
            &&& lookup(twice, key@) == Some(second)
        }),
{
    let once = with_pair(slots, key, first);
    let twice = with_pair(once, again, second);
    lemma_advances(slots, key@);
    lemma_settle(slots, key, first);
    lemma_settle(once, again, second);
    assert(twice =~= with_pair(slots, again, second));
}

/// Emplace creates once: where the key is absent, the slot at which its
/// probe stops is empty and is the one slot that changes. A further probe
/// for an equal key stops at that same slot after as many advances, and
/// finds there what the first caller left.
pub proof fn lemma_emplace_again<A: Hashed, B>(
    slots: Seq<Option<(A, B)>>,
    key: A,
    left: B,
    again: A,
)
    requires
        well_placed(slots),
        reaches(slots, key@),
        !as_map(slots).contains_key(key@),
        again@ == key@,
    ensures
        ({
            let t = target(slots, key@);
            let once = slots.update(t, Some((key, left)));
            &&& slots[t] is None
            &&& forall|idx: int| 0 <= idx < slots.len() && idx != t ==> once[idx] == slots[idx]
            &&& reaches(once, again@)
            &&& target(once, again@) == t
            &&& advances(once, again@) == advances(slots, key@)
            &&& once[t] == Some((key, left))
            &&& lookup(once, again@) == Some(left)
        }),
{
    lemma_advances(slots, key@);
    lemma_lookup_at_target(slots, key@);
    lemma_settle(slots, key, left);
}

} // verus!
