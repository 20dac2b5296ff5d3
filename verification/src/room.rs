//! When a probe is sure to stop: a probe whose step has no divisor in
//! common with the number of slots examines every slot, so it stops in any
//! table that has an empty slot.

use crate::hashish::Hashed;
use crate::laws::{all_reach, insert_all, lemma_insert_get_round_trip};
use crate::probing::{
    entries, lemma_advances, lemma_probe_closed_form, lemma_settle, lookup, probe, reaches,
    reversed, stops, target, well_placed,
};
use vstd::arithmetic::div_mod::{
    lemma_fundamental_div_mod, lemma_mod_bound, lemma_mod_multiples_basic,
    lemma_mod_multiples_vanish, lemma_small_mod,
};
use vstd::prelude::*;

verus! {

/// Whether `a` and `b` have no divisor in common but 1.
pub open spec fn coprime(a: int, b: int) -> bool {
    forall|d: int| d > 1 && #[trigger] (a % d) == 0 ==> b % d != 0
}

/// The step between two probes for a hash, in a table of `n` slots.
pub open spec fn step(n: nat, h: usize) -> int {
    reversed(h) as int % n as int
}

/// What divides two numbers divides their sum with any multiple.
proof fn lemma_divides_combination(d: int, a: int, q: int, r: int)
    requires
        d > 0,
        a % d == 0,
        r % d == 0,
    ensures
        (a * q + r) % d == 0,
{
    lemma_fundamental_div_mod(a, d);
    lemma_fundamental_div_mod(r, d);
    let k = (a / d) * q + r / d;
    assert(a * q + r == k * d) by (nonlinear_arith)
        requires
            a == d * (a / d),
            r == d * (r / d),
            k == (a / d) * q + r / d,
    ;
    lemma_mod_multiples_basic(k, d);
}

/// Numbers without a common divisor combine to 1.
pub proof fn lemma_coprime_combine(a: int, b: int) -> (xy: (int, int))
    requires
        a >= 0,
        b > 0,
        coprime(a, b),
    ensures
        a * xy.0 + b * xy.1 == 1,
    decreases a,
{
    if a == 0 {
        if b > 1 {
            assert(a % b == 0);
            assert(b % b == 0) by {
                lemma_mod_multiples_basic(1, b);
            }
        }
        assert(a * 0 + b * 1 == 1) by (nonlinear_arith)
            requires
                a == 0,
                b == 1,
        ;
        (0, 1)
    } else {
        let q = b / a;
        let r = b % a;
        lemma_fundamental_div_mod(b, a);
        lemma_mod_bound(b, a);
        assert forall|d: int| d > 1 && #[trigger] (r % d) == 0 implies a % d != 0 by {
            if a % d == 0 {
                lemma_divides_combination(d, a, q, r);
                assert(a * q + r == b) by (nonlinear_arith)
                    requires
                        b == a * q + r,
                ;
            }
        }
        let (x, y) = lemma_coprime_combine(r, a);
        assert(a * (y - q * x) + b * x == 1) by (nonlinear_arith)
            requires
                r * x + a * y == 1,
                b == a * q + r,
        ;
        (y - q * x, x)
    }
}

/// A probe whose step has no divisor in common with the number of slots
/// examines every slot.
pub proof fn lemma_probe_examines(n: nat, h: usize, slot: int) -> (i: nat)
    requires
        n > 0,
        coprime(step(n, h), n as int),
        0 <= slot < n,
    ensures
        probe(n, h, i) == slot,
{
    let m = n as int;
    let s = reversed(h) as int;
    lemma_mod_bound(s, m);
    lemma_fundamental_div_mod(s, m);
    let (x, y) = lemma_coprime_combine(step(n, h), m);
    let want = (slot - h) * x;
    lemma_mod_bound(want, m);
    lemma_fundamental_div_mod(want, m);
    let i = (want % m) as nat;
    let t = s % m;
    let d = slot - h;
    let k = (s / m) * x * d - y * d - (want / m) * s;
    assert(d * (t * x) == d - m * (y * d)) by (nonlinear_arith)
        requires
            t * x + m * y == 1,
    ;
    assert(want * s == m * ((s / m) * x * d) + d * (t * x)) by (nonlinear_arith)
        requires
            s == m * (s / m) + t,
            want == d * x,
    ;
    assert(i * s == want * s - m * ((want / m) * s)) by (nonlinear_arith)
        requires
            want == m * (want / m) + i,
    ;
    assert(h + i * s == m * k + slot) by (nonlinear_arith)
        requires
            i * s == want * s - m * ((want / m) * s),
            want * s == m * ((s / m) * x * d) + d * (t * x),
            d * (t * x) == d - m * (y * d),
            d == slot - h,
            k == (s / m) * x * d - y * d - (want / m) * s,
    ;
    lemma_mod_multiples_vanish(k, slot, m);
    lemma_small_mod(slot as nat, n);
    lemma_probe_closed_form(n, h, i);
    i
}

/// A table with fewer pairs than slots has an empty slot.
pub proof fn lemma_room<A, B>(slots: Seq<Option<(A, B)>>) -> (idx: int)
    requires
        entries(slots).len() < slots.len(),
    ensures
        0 <= idx < slots.len(),
        slots[idx] is None,
    decreases slots.len(),
{
    if slots.first() is None {
        0
    } else {
        let rest = slots.drop_first();
        assert(entries(slots).len() == entries(rest).len() + 1);
        lemma_room(rest) + 1
    }
}

/// Writing a pair to a slot adds one pair to the table at most.
pub proof fn lemma_one_more<A, B>(slots: Seq<Option<(A, B)>>, at: int, pair: (A, B))
    requires
        0 <= at < slots.len(),
    ensures
        entries(slots.update(at, Some(pair))).len() <= entries(slots).len() + 1,
    decreases slots.len(),
{
    let after = slots.update(at, Some(pair));
    if at == 0 {
        assert(after.drop_first() =~= slots.drop_first());
    } else {
        lemma_one_more(slots.drop_first(), at - 1, pair);
        assert(after.drop_first() =~= slots.drop_first().update(at - 1, Some(pair)));
    }
}

/// In a table with an empty slot, a probe whose step has no divisor in
/// common with the number of slots stops.
pub proof fn lemma_reaches_with_room<A: Hashed, B>(slots: Seq<Option<(A, B)>>, kv: A::V)
    requires
        entries(slots).len() < slots.len(),
        coprime(step(slots.len(), A::hash_of(kv)), slots.len() as int),
    ensures
        reaches(slots, kv),
{
    let idx = lemma_room(slots);
    let i = lemma_probe_examines(slots.len(), A::hash_of(kv), idx);
    assert(stops(slots, kv, i));
}

/// A run of inserts finds a slot for every key, where the table has room
/// for as many pairs and the steps of all the keys have no divisor in
/// common with the number of slots.
pub proof fn lemma_inserts_reach<A: Hashed, B>(slots: Seq<Option<(A, B)>>, pairs: Seq<(A, B)>)
    requires
        well_placed(slots),
        entries(slots).len() + pairs.len() <= slots.len(),
        forall|j: int|
            0 <= j < pairs.len() ==> coprime(
                step(slots.len(), A::hash_of((#[trigger] pairs[j]).0@)),
                slots.len() as int,
            ),
    ensures
        all_reach(slots, pairs),
        well_placed(insert_all(slots, pairs)),
        insert_all(slots, pairs).len() == slots.len(),
        entries(insert_all(slots, pairs)).len() <= entries(slots).len() + pairs.len(),
    decreases pairs.len(),
{
    if pairs.len() > 0 {
        let rest = pairs.drop_last();
        let last = pairs.last();
        assert forall|j: int| 0 <= j < rest.len() implies coprime(
            step(slots.len(), A::hash_of((#[trigger] rest[j]).0@)),
            slots.len() as int,
        ) by {
            assert(rest[j] == pairs[j]);
        }
        lemma_inserts_reach(slots, rest);
        let before = insert_all(slots, rest);
        lemma_reaches_with_room(before, last.0@);
        lemma_advances(before, last.0@);
        lemma_settle(before, last.0, last.1);
        lemma_one_more(before, target(before, last.0@), (last.0, last.1));
    }
}

/// Insert and get round trip, below capacity: after no more inserts into
/// an empty table than it has slots, under keys that differ and whose
/// steps have no divisor in common with the number of slots, every key is
/// looked up with the value it was inserted with.
pub proof fn lemma_round_trip_below_capacity<A: Hashed, B>(n: nat, pairs: Seq<(A, B)>, i: int)
    requires
        pairs.len() <= n,
        0 <= i < pairs.len(),
        forall|j: int| 0 <= j < pairs.len() && j != i ==> pairs[j].0@ != pairs[i].0@,
        forall|j: int|
            0 <= j < pairs.len() ==> coprime(
                step(n, A::hash_of((#[trigger] pairs[j]).0@)),
                n as int,
            ),
    ensures
        ({
            let empty = Seq::new(n, |idx: int| None::<(A, B)>);
            &&& all_reach(empty, pairs)
            &&& lookup(insert_all(empty, pairs), pairs[i].0@) == Some(pairs[i].1)
        }),
{
    let empty = Seq::new(n, |idx: int| None::<(A, B)>);
    lemma_no_entries(empty);
    lemma_inserts_reach(empty, pairs);
    lemma_insert_get_round_trip(empty, pairs, i);
}

/// A table of empty slots holds no pair.
pub proof fn lemma_no_entries<A, B>(slots: Seq<Option<(A, B)>>)
    requires
        forall|idx: int| 0 <= idx < slots.len() ==> slots[idx] is None,
    ensures
        entries(slots).len() == 0,
    decreases slots.len(),
{
    if slots.len() > 0 {
        lemma_no_entries(slots.drop_first());
    }
}

} // verus!
