//! The probe sequence of the table and what it means for a key to be placed
//! well, stated over a plain sequence of slots.

use crate::hashish::Hashed;
use vstd::arithmetic::div_mod::{
    lemma_add_mod_noop_right, lemma_mod_bound, lemma_mod_multiples_vanish, lemma_small_mod,
};
use vstd::arithmetic::power2::pow2;
use vstd::prelude::*;

verus! {

/// The number whose lowest `width` binary digits are those of `x` in the
/// opposite order: digit `i` of `x` becomes digit `width - 1 - i`.
pub open spec fn mirror_bits(x: nat, width: nat) -> nat
    decreases width,
{
    if width == 0 {
        0
    } else {
        (x % 2) * pow2((width - 1) as nat) + mirror_bits(x / 2, (width - 1) as nat)
    }
}

/// The hash with the order of its bits reversed over the width of a `usize`.
/// This is the increment between two successive probes.
pub open spec fn reversed(h: usize) -> nat {
    mirror_bits(h as nat, usize::BITS as nat)
}

/// The slot examined after `i` advances in a table of `n` slots: the probe
/// starts at `h % n` and every advance adds the reversed hash, modulo `n`.
pub open spec fn probe(n: nat, h: usize, i: nat) -> int
    decreases i,
{
    if i == 0 {
        h as int % n as int
    } else {
        (probe(n, h, (i - 1) as nat) + reversed(h)) % n as int
    }
}

/// Whether the probe for a key with view `kv` stops after `i` advances: the
/// slot it examines then is empty or holds a key with that view.
pub open spec fn stops<A: Hashed, B>(slots: Seq<Option<(A, B)>>, kv: A::V, i: nat) -> bool {
    match slots[probe(slots.len(), A::hash_of(kv), i)] {
        None => true,
        Some((k, _)) => k@ == kv,
    }
}

/// Whether `i` is the number of advances the probe for `kv` makes before it
/// stops for the first time.
pub open spec fn first_stop<A: Hashed, B>(slots: Seq<Option<(A, B)>>, kv: A::V, i: nat) -> bool {
    &&& stops(slots, kv, i)
    &&& forall|j: nat| j < i ==> !#[trigger] stops(slots, kv, j)
}

/// Whether the probe for `kv` ever stops. Where it does not, every slot on
/// the probe's cycle holds another key and the key can be neither found nor
/// placed.
pub open spec fn reaches<A: Hashed, B>(slots: Seq<Option<(A, B)>>, kv: A::V) -> bool {
    slots.len() > 0 && exists|i: nat| stops(slots, kv, i)
}

/// The number of advances the probe for `kv` makes before it stops.
pub open spec fn advances<A: Hashed, B>(slots: Seq<Option<(A, B)>>, kv: A::V) -> nat {
    choose|i: nat| first_stop(slots, kv, i)
}

/// The slot at which the probe for `kv` stops.
pub open spec fn target<A: Hashed, B>(slots: Seq<Option<(A, B)>>, kv: A::V) -> int {
    probe(slots.len(), A::hash_of(kv), advances(slots, kv))
}

/// Whether slot `idx` holds a key with view `kv`.
pub open spec fn holds_key<A: Hashed, B>(slots: Seq<Option<(A, B)>>, idx: int, kv: A::V) -> bool {
    match slots[idx] {
        None => false,
        Some((k, _)) => k@ == kv,
    }
}

/// Whether some slot holds a key with view `kv`.
pub open spec fn resident<A: Hashed, B>(slots: Seq<Option<(A, B)>>, kv: A::V) -> bool {
    exists|idx: int| 0 <= idx < slots.len() && holds_key(slots, idx, kv)
}

/// Every resident key sits where its own probe stops first, so a probe for
/// it meets it before it meets an empty slot.
pub open spec fn well_placed<A: Hashed, B>(slots: Seq<Option<(A, B)>>) -> bool {
    forall|idx: int|
        0 <= idx < slots.len() ==> match #[trigger] slots[idx] {
            None => true,
            Some((k, _)) => reaches(slots, k@) && target(slots, k@) == idx,
        }
}

/// The slots read as a map from the views of the resident keys to their
/// values.
pub open spec fn as_map<A: Hashed, B>(slots: Seq<Option<(A, B)>>) -> Map<A::V, B> {
    Map::new(
        |kv: A::V| resident(slots, kv),
        |kv: A::V|
            slots[choose|idx: int| 0 <= idx < slots.len() && holds_key(slots, idx, kv)].unwrap().1,
    )
}

/// The value stored under a key with view `kv`, if there is one.
pub open spec fn lookup<A: Hashed, B>(slots: Seq<Option<(A, B)>>, kv: A::V) -> Option<B> {
    if as_map(slots).contains_key(kv) {
        Some(as_map(slots)[kv])
    } else {
        None
    }
}

/// The slots after `key` and `value` were written to the slot at which the
/// key's probe stops.
pub open spec fn with_pair<A: Hashed, B>(slots: Seq<Option<(A, B)>>, key: A, value: B) -> Seq<
    Option<(A, B)>,
> {
    slots.update(target(slots, key@), Some((key, value)))
}

/// The resident pairs in storage order.
pub open spec fn entries<A, B>(slots: Seq<Option<(A, B)>>) -> Seq<(A, B)>
    decreases slots.len(),
{
    if slots.len() == 0 {
        Seq::empty()
    } else {
        match slots.first() {
            None => entries(slots.drop_first()),
            Some(e) => seq![e] + entries(slots.drop_first()),
        }
    }
}

/// Every probed slot lies inside the table.
pub proof fn lemma_probe_in_range(n: nat, h: usize, i: nat)
    requires
        n > 0,
    ensures
        0 <= probe(n, h, i) < n,
{
    if i == 0 {
        lemma_mod_bound(h as int, n as int);
    } else {
        lemma_mod_bound(probe(n, h, (i - 1) as nat) + reversed(h), n as int);
    }
}

/// The probe in closed form: `i` advances add `i` times the reversed hash.
pub proof fn lemma_probe_closed_form(n: nat, h: usize, i: nat)
    requires
        n > 0,
    ensures
        probe(n, h, i) == (h + i * reversed(h)) % n as int,
    decreases i,
{
    let r = reversed(h) as int;
    if i == 0 {
        assert(h + i * r == h) by (nonlinear_arith)
            requires
                i == 0,
        ;
    } else {
        let before = h + (i - 1) * r;
        lemma_probe_closed_form(n, h, (i - 1) as nat);
        assert(probe(n, h, (i - 1) as nat) == before % n as int);
        assert((r + before % n as int) % n as int == (r + before) % n as int) by {
            lemma_add_mod_noop_right(r, before, n as int);
        }
        assert(r + before == h + i * r) by (nonlinear_arith)
            requires
                before == h + (i - 1) * r,
        ;
    }
}

/// After as many advances as there are slots the probe is back where it was.
pub proof fn lemma_probe_periodic(n: nat, h: usize, i: nat)
    requires
        n > 0,
    ensures
        probe(n, h, i + n) == probe(n, h, i),
{
    let r = reversed(h) as int;
    lemma_probe_closed_form(n, h, i);
    lemma_probe_closed_form(n, h, i + n);
    assert(h + (i + n) * r == n * r + (h + i * r)) by (nonlinear_arith);
    lemma_mod_multiples_vanish(r, h + i * r, n as int);
}

/// Every slot the probe ever examines is examined within the first `n`
/// probes.
pub proof fn lemma_probe_wraps(n: nat, h: usize, i: nat)
    requires
        n > 0,
    ensures
        probe(n, h, i) == probe(n, h, i % n),
        i % n < n,
    decreases i,
{
    lemma_mod_bound(i as int, n as int);
    if i < n {
        lemma_small_mod(i, n);
    } else {
        let less = (i - n) as nat;
        lemma_probe_wraps(n, h, less);
        lemma_probe_periodic(n, h, less);
        assert(i as int % n as int == less as int % n as int) by {
            vstd::arithmetic::div_mod::lemma_mod_add_multiples_vanish(less as int, n as int);
        }
    }
}

/// Among the stops of a probe there is a first one.
pub proof fn lemma_first_stop_exists<A: Hashed, B>(slots: Seq<Option<(A, B)>>, kv: A::V, w: nat)
    requires
        stops(slots, kv, w),
    ensures
        exists|i: nat| i <= w && first_stop(slots, kv, i),
    decreases w,
{
    if forall|j: nat| j < w ==> !#[trigger] stops(slots, kv, j) {
        assert(first_stop(slots, kv, w));
    } else {
        let j = choose|j: nat| j < w && stops(slots, kv, j);
        lemma_first_stop_exists(slots, kv, j);
    }
}

/// A probe has one first stop only.
pub proof fn lemma_first_stop_unique<A: Hashed, B>(
    slots: Seq<Option<(A, B)>>,
    kv: A::V,
    i: nat,
    j: nat,
)
    requires
        first_stop(slots, kv, i),
        first_stop(slots, kv, j),
    ensures
        i == j,
{
    if i < j {
        assert(stops(slots, kv, i));
    } else if j < i {
        assert(stops(slots, kv, j));
    }
}

/// A probe that stops at all stops within its first cycle, at a slot of the
/// table.
pub proof fn lemma_advances<A: Hashed, B>(slots: Seq<Option<(A, B)>>, kv: A::V)
    requires
        reaches(slots, kv),
    ensures
        first_stop(slots, kv, advances(slots, kv)),
        advances(slots, kv) < slots.len(),
        0 <= target(slots, kv) < slots.len(),
{
    let n = slots.len();
    let h = A::hash_of(kv);
    let w = choose|i: nat| stops(slots, kv, i);
    lemma_first_stop_exists(slots, kv, w);
    let a = advances(slots, kv);
    lemma_probe_wraps(n, h, a);
    if a >= n {
        assert(stops(slots, kv, a % n));
    }
    lemma_probe_in_range(n, h, a);
}

/// The first stop of a probe is the number of its advances.
pub proof fn lemma_first_stop_is_advances<A: Hashed, B>(
    slots: Seq<Option<(A, B)>>,
    kv: A::V,
    i: nat,
)
    requires
        slots.len() > 0,
        first_stop(slots, kv, i),
    ensures
        reaches(slots, kv),
        advances(slots, kv) == i,
        target(slots, kv) == probe(slots.len(), A::hash_of(kv), i),
{
    lemma_advances(slots, kv);
    lemma_first_stop_unique(slots, kv, i, advances(slots, kv));
}

/// A probe that does not stop within its first cycle never stops.
pub proof fn lemma_cycle_without_stop<A: Hashed, B>(slots: Seq<Option<(A, B)>>, kv: A::V)
    requires
        forall|j: nat| j < slots.len() ==> !#[trigger] stops(slots, kv, j),
    ensures
        !reaches(slots, kv),
{
    if reaches(slots, kv) {
        let n = slots.len();
        let w = choose|i: nat| stops(slots, kv, i);
        lemma_probe_wraps(n, A::hash_of(kv), w);
        assert(stops(slots, kv, w % n));
    }
}

/// In a well-placed table a key is found where its probe stops, and the map
/// holds the value stored there.
pub proof fn lemma_resident_at_target<A: Hashed, B>(
    slots: Seq<Option<(A, B)>>,
    idx: int,
    kv: A::V,
)
    requires
        well_placed(slots),
        0 <= idx < slots.len(),
        holds_key(slots, idx, kv),
    ensures
        reaches(slots, kv),
        target(slots, kv) == idx,
        as_map(slots).contains_key(kv),
        as_map(slots)[kv] == slots[idx].unwrap().1,
{
    assert(slots[idx] is Some);
    assert(resident(slots, kv));
    let other = choose|i: int| 0 <= i < slots.len() && holds_key(slots, i, kv);
    assert(slots[other] is Some);
}

/// In a well-placed table the slot at which a probe stops decides whether
/// the key is resident: it holds the key with its value, or it is empty and
/// the key is in no slot.
pub proof fn lemma_lookup_at_target<A: Hashed, B>(slots: Seq<Option<(A, B)>>, kv: A::V)
    requires
        well_placed(slots),
        reaches(slots, kv),
    ensures
        match slots[target(slots, kv)] {
            Some((k, v)) => k@ == kv && as_map(slots).contains_key(kv) && as_map(slots)[kv] == v,
            None => !as_map(slots).contains_key(kv),
        },
{
    lemma_advances(slots, kv);
    let t = target(slots, kv);
    assert(stops(slots, kv, advances(slots, kv)));
    if slots[t] is Some {
        lemma_resident_at_target(slots, t, kv);
    } else if resident(slots, kv) {
        let idx = choose|i: int| 0 <= i < slots.len() && holds_key(slots, i, kv);
        lemma_resident_at_target(slots, idx, kv);
    }
}

/// In a well-placed table a key whose probe never stops is in no slot.
pub proof fn lemma_unreached_is_absent<A: Hashed, B>(slots: Seq<Option<(A, B)>>, kv: A::V)
    requires
        well_placed(slots),
        !reaches(slots, kv),
    ensures
        !as_map(slots).contains_key(kv),
{
    if resident(slots, kv) {
        let idx = choose|i: int| 0 <= i < slots.len() && holds_key(slots, i, kv);
        lemma_resident_at_target(slots, idx, kv);
    }
}

/// Writing a key and a value into the slot at which the key's probe stops
/// keeps the table well placed, leaves the probe for that key as it was, and
/// changes the map by that one key.
pub proof fn lemma_settle<A: Hashed, B>(slots: Seq<Option<(A, B)>>, key: A, value: B)
    requires
        well_placed(slots),
        reaches(slots, key@),
    ensures
        ({
            let after = slots.update(target(slots, key@), Some((key, value)));
            &&& well_placed(after)
            &&& reaches(after, key@)
            &&& advances(after, key@) == advances(slots, key@)
            &&& target(after, key@) == target(slots, key@)
            &&& as_map(after) == as_map(slots).insert(key@, value)
        }),
{
    let n = slots.len();
    let kv = key@;
    let t = target(slots, kv);
    let a = advances(slots, kv);
    let after = slots.update(t, Some((key, value)));
    lemma_advances(slots, kv);
    assert(stops(slots, kv, a));
    assert forall|i: nat| stops(after, kv, i) == stops(slots, kv, i) by {
        lemma_probe_in_range(n, A::hash_of(kv), i);
    }
    assert(first_stop(after, kv, a));
    lemma_first_stop_is_advances(after, kv, a);
    assert forall|idx: int| 0 <= idx < after.len() implies match #[trigger] after[idx] {
        None => true,
        Some((k, _)) => reaches(after, k@) && target(after, k@) == idx,
    } by {
        if idx != t && after[idx] is Some {
            let other = after[idx].unwrap().0@;
            assert(slots[idx] is Some);
            if other == kv {
                lemma_resident_at_target(slots, idx, kv);
            }
            lemma_advances(slots, other);
            let b = advances(slots, other);
            assert(stops(slots, other, b));
            assert forall|j: nat| stops(after, other, j) implies stops(slots, other, j) by {
                lemma_probe_in_range(n, A::hash_of(other), j);
            }
            assert(first_stop(after, other, b));
            lemma_first_stop_is_advances(after, other, b);
        }
    }
    assert(well_placed(after));
    assert(holds_key(after, t, kv));
    lemma_resident_at_target(after, t, kv);
    assert forall|x: A::V| x != kv implies (resident(after, x) <==> resident(slots, x)) && (resident(
        slots,
        x,
    ) ==> as_map(after)[x] == as_map(slots)[x]) by {
        if resident(after, x) {
            let idx = choose|i: int| 0 <= i < after.len() && holds_key(after, i, x);
            assert(holds_key(slots, idx, x));
        }
        if resident(slots, x) {
            let idx = choose|i: int| 0 <= i < slots.len() && holds_key(slots, i, x);
            assert(stops(slots, kv, a));
            assert(holds_key(after, idx, x));
            lemma_resident_at_target(slots, idx, x);
            lemma_resident_at_target(after, idx, x);
        }
    }
    assert(as_map(after) =~= as_map(slots).insert(kv, value));
}

/// The slot from which pair `i` of `entries(slots)` comes.
pub open spec fn origin<A, B>(slots: Seq<Option<(A, B)>>, i: int) -> int
    decreases slots.len(),
{
    if slots.len() == 0 {
        0
    } else if slots.first() is None {
        1 + origin(slots.drop_first(), i)
    } else if i <= 0 {
        0
    } else {
        1 + origin(slots.drop_first(), i - 1)
    }
}

/// Every pair of `entries` comes from a slot that holds it.
pub proof fn lemma_origin<A, B>(slots: Seq<Option<(A, B)>>, i: int)
    requires
        0 <= i < entries(slots).len(),
    ensures
        0 <= origin(slots, i) < slots.len(),
        slots[origin(slots, i)] == Some(entries(slots)[i]),
    decreases slots.len(),
{
    let rest = slots.drop_first();
    if slots.first() is None {
        lemma_origin(rest, i);
    } else if i > 0 {
        lemma_origin(rest, i - 1);
    }
}

/// Later pairs of `entries` come from later slots.
pub proof fn lemma_origin_increases<A, B>(slots: Seq<Option<(A, B)>>, i: int, j: int)
    requires
        0 <= i < j < entries(slots).len(),
    ensures
        origin(slots, i) < origin(slots, j),
    decreases slots.len(),
{
    let rest = slots.drop_first();
    if slots.first() is None {
        lemma_origin_increases(rest, i, j);
    } else if i > 0 {
        lemma_origin_increases(rest, i - 1, j - 1);
    } else {
        lemma_origin(rest, j - 1);
    }
}

/// Every occupied slot has its pair in `entries`.
pub proof fn lemma_slot_in_entries<A, B>(slots: Seq<Option<(A, B)>>, idx: int)
    requires
        0 <= idx < slots.len(),
        slots[idx] is Some,
    ensures
        exists|i: int| 0 <= i < entries(slots).len() && entries(slots)[i] == slots[idx].unwrap(),
    decreases slots.len(),
{
    let rest = slots.drop_first();
    if idx == 0 {
        assert(entries(slots)[0] == slots[idx].unwrap());
    } else {
        lemma_slot_in_entries(rest, idx - 1);
        let i = choose|i: int| 0 <= i < entries(rest).len() && entries(rest)[i] == rest[idx - 1].unwrap();
        if slots.first() is None {
            assert(entries(slots)[i] == slots[idx].unwrap());
        } else {
            assert(entries(slots)[i + 1] == slots[idx].unwrap());
        }
    }
}

/// In a well-placed table `entries` lists the map: every pair is a key of
/// the map with its value, no two pairs have keys with the same view, and
/// every key of the map has its pair.
pub proof fn lemma_entries_list_map<A: Hashed, B>(slots: Seq<Option<(A, B)>>)
    requires
        well_placed(slots),
    ensures
        forall|i: int|
            0 <= i < entries(slots).len() ==> as_map(slots).contains_key(
                (#[trigger] entries(slots)[i]).0@,
            ) && as_map(slots)[entries(slots)[i].0@] == entries(slots)[i].1,
        forall|i: int, j: int|
            0 <= i < j < entries(slots).len() ==> (#[trigger] entries(slots)[i]).0@ != (
            #[trigger] entries(slots)[j]).0@,
        forall|kv: A::V| #[trigger]
            as_map(slots).contains_key(kv) ==> exists|i: int|
                0 <= i < entries(slots).len() && (#[trigger] entries(slots)[i]).0@ == kv,
{
    let all = entries(slots);
    assert forall|i: int| 0 <= i < all.len() implies as_map(slots).contains_key(
        (#[trigger] all[i]).0@,
    ) && as_map(slots)[all[i].0@] == all[i].1 by {
        lemma_origin(slots, i);
        lemma_resident_at_target(slots, origin(slots, i), all[i].0@);
    }
    assert forall|i: int, j: int| 0 <= i < j < all.len() implies (#[trigger] all[i]).0@ != (
    #[trigger] all[j]).0@ by {
        lemma_origin(slots, i);
        lemma_origin(slots, j);
        lemma_origin_increases(slots, i, j);
        if all[i].0@ == all[j].0@ {
            lemma_resident_at_target(slots, origin(slots, i), all[i].0@);
            lemma_resident_at_target(slots, origin(slots, j), all[i].0@);
        }
    }
    assert forall|kv: A::V| #[trigger] as_map(slots).contains_key(kv) implies exists|i: int|
        0 <= i < all.len() && (#[trigger] all[i]).0@ == kv by {
        let idx = choose|idx: int| 0 <= idx < slots.len() && holds_key(slots, idx, kv);
        lemma_slot_in_entries(slots, idx);
    }
}

/// Whether two tables hold the same: slot by slot both are empty, or both
/// hold the same value under keys with the same view.
pub open spec fn same_layout<A: Hashed, B>(a: Seq<Option<(A, B)>>, b: Seq<Option<(A, B)>>) -> bool {
    &&& a.len() == b.len()
    &&& forall|idx: int|
        0 <= idx < a.len() ==> match (#[trigger] a[idx], b[idx]) {
            (None, None) => true,
            (Some((k, v)), Some((l, w))) => k@ == l@ && v == w,
            _ => false,
        }
}

/// Probes do not tell two tables apart that hold the same.
pub proof fn lemma_same_layout_probes<A: Hashed, B>(
    a: Seq<Option<(A, B)>>,
    b: Seq<Option<(A, B)>>,
    kv: A::V,
)
    requires
        same_layout(a, b),
    ensures
        reaches(a, kv) == reaches(b, kv),
        reaches(a, kv) ==> advances(a, kv) == advances(b, kv) && target(a, kv) == target(b, kv),
{
    let n = a.len();
    if n > 0 {
        assert forall|i: nat| stops(a, kv, i) == stops(b, kv, i) by {
            lemma_probe_in_range(n, A::hash_of(kv), i);
        }
        if reaches(a, kv) {
            let w = choose|i: nat| stops(a, kv, i);
            assert(stops(b, kv, w));
            lemma_advances(a, kv);
            lemma_advances(b, kv);
            let i = advances(a, kv);
            assert(first_stop(b, kv, i));
            lemma_first_stop_unique(b, kv, i, advances(b, kv));
        } else if reaches(b, kv) {
            let w = choose|i: nat| stops(b, kv, i);
            assert(stops(a, kv, w));
        }
    }
}

/// Two tables that hold the same are well placed together and are the same
/// map.
pub proof fn lemma_same_layout_maps<A: Hashed, B>(a: Seq<Option<(A, B)>>, b: Seq<Option<(A, B)>>)
    requires
        same_layout(a, b),
        well_placed(a),
    ensures
        well_placed(b),
        as_map(a) == as_map(b),
{
    assert forall|idx: int| 0 <= idx < b.len() implies match #[trigger] b[idx] {
        None => true,
        Some((k, _)) => reaches(b, k@) && target(b, k@) == idx,
    } by {
        if b[idx] is Some {
            assert(a[idx] is Some);
            lemma_same_layout_probes(a, b, b[idx].unwrap().0@);
        }
    }
    assert forall|kv: A::V| #[trigger]
        as_map(a).dom().contains(kv) == as_map(b).dom().contains(kv) && (as_map(a).dom().contains(
            kv,
        ) ==> as_map(a)[kv] == as_map(b)[kv]) by {
        if resident(a, kv) {
            let idx = choose|i: int| 0 <= i < a.len() && holds_key(a, i, kv);
            assert(a[idx] is Some);
            assert(holds_key(b, idx, kv));
            lemma_resident_at_target(a, idx, kv);
            lemma_resident_at_target(b, idx, kv);
        }
        if resident(b, kv) {
            let idx = choose|i: int| 0 <= i < b.len() && holds_key(b, i, kv);
            assert(b[idx] is Some);
            assert(holds_key(a, idx, kv));
        }
    }
    assert(as_map(a) =~= as_map(b));
}

} // verus!
