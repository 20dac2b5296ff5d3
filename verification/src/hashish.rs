//! A fixed-capacity, open-addressing table.

use crate::probing::{
    advances, as_map, entries, lemma_cycle_without_stop, lemma_first_stop_is_advances,
    lemma_lookup_at_target, lemma_settle, lemma_unreached_is_absent, probe, reaches, reversed,
    stops, target, well_placed, with_pair,
};
use std::hash::{Hash, Hasher};
use vstd::arithmetic::div_mod::{
    lemma_add_mod_noop_right, lemma_mod_add_multiples_vanish, lemma_small_mod,
};
use vstd::pervasive::unreached;
use vstd::prelude::*;

verus! {

/// A key of the table: something with a hash and an equality that agree with
/// its view.
///
/// The hash is a function of the view alone, so two keys that `same_key`
/// accepts as equal always start their probe at the same slot. What is
/// proved of a table holds for the key types that keep the two promises
/// below.
pub trait Hashed: View + Sized {
    /// The hash of a key whose view is `v`.
    spec fn hash_of(v: Self::V) -> usize;

    /// The hash of this key.
    fn compute_hash(&self) -> (h: usize)
        ensures
            h == Self::hash_of(self@),
    ;

    /// Whether the two keys are the same key: whether their views are equal.
    fn same_key(&self, other: &Self) -> (r: bool)
        ensures
            r == (self@ == other@),
    ;
}

/// What `rustc_hash::FxHasher` makes of a string: the hasher starts from its
/// default state, is fed the string through `Hash`, and is asked to finish.
/// The value is a function of the characters alone for a given target.
pub uninterp spec fn fx_hash(text: Seq<char>) -> usize;

/// Hashes `text` with `rustc_hash::FxHasher`, as `str`'s `Hash` impl feeds
/// it. The hasher has no seed and no state beyond what it is fed, so the
/// result is `fx_hash` of the characters.
#[verifier::external_body]
fn fx_hash_of(text: &str) -> (h: usize)
    ensures
        h == fx_hash(text@),
{
    let mut hasher = rustc_hash::FxHasher::default();
    text.hash(&mut hasher);
    hasher.finish() as usize
}

/// `str`'s `==`: true exactly when the two strings hold the same characters.
#[verifier::external_body]
fn same_text(a: &str, b: &str) -> (r: bool)
    ensures
        r == (a@ == b@),
{
    a == b
}

/// `usize::reverse_bits`: the least significant bit becomes the most
/// significant one, the second least the second most, and so on.
#[verifier::external_body]
fn reverse_bits(h: usize) -> (r: usize)
    ensures
        r == reversed(h),
{
    h.reverse_bits()
}

impl<'a> Hashed for &'a str {
    open spec fn hash_of(v: Seq<char>) -> usize {
        fx_hash(v)
    }

    #[inline]
    fn compute_hash(&self) -> (h: usize) {
        fx_hash_of(*self)
    }

    #[inline]
    fn same_key(&self, other: &Self) -> (r: bool) {
        same_text(*self, *other)
    }
}

/// Whether `v` is a value that `B::default()` may return.
pub open spec fn is_default<B: Default>(v: B) -> bool {
    call_ensures(B::default, (), v)
}

#[derive(Debug)]
struct Entry<A, B> {
    key: Option<A>,
    value: B,
}

impl<A: Copy, B: Copy> Copy for Entry<A, B> {

}

impl<A: Copy, B: Copy> Clone for Entry<A, B> {
    fn clone(&self) -> (e: Self)
        ensures
            e == *self,
    {
        *self
    }
}

/// A table of `N` slots. Each slot is empty or holds a key and its value;
/// nothing is ever removed and the table never grows.
#[derive(Debug)]
pub struct Table<const N: usize, A, B> {
    store: [Entry<A, B>; N],
    collisions: usize,
}

impl<const N: usize, A: Hashed + Copy, B: Default + Copy> View for Table<N, A, B> {
    type V = Map<A::V, B>;

    /// The table as a map from the views of its keys to their values.
    open spec fn view(&self) -> Map<A::V, B> {
        as_map(self.slots())
    }
}

impl<const N: usize, A: Hashed + Copy, B: Default + Copy> Table<N, A, B> {
    /// The slots in storage order: `None` for an empty slot, the key and its
    /// value for an occupied one.
    pub closed spec fn slots(&self) -> Seq<Option<(A, B)>> {
        Seq::new(
            self.store@.len(),
            |i: int|
                match self.store@[i].key {
                    Some(k) => Some((k, self.store@[i].value)),
                    None => None,
                },
        )
    }

    /// The number of probe advances that `emplace` has made so far.
    pub closed spec fn collisions(&self) -> nat {
        self.collisions as nat
    }

    /// The table has its `N` slots and every key in it is where its probe
    /// finds it.
    pub open spec fn wf(&self) -> bool {
        &&& self.slots().len() == N
        &&& well_placed(self.slots())
    }

    /// A table of `N` empty slots that has seen no collision.
    pub fn new() -> (t: Self)
        ensures
            t.wf(),
            t.slots() == Seq::new(N as nat, |i: int| None::<(A, B)>),
            t@ == Map::<A::V, B>::empty(),
            t.collisions() == 0,
    {
        let blank = Entry { key: None, value: B::default() };
        let store = [blank; N];
        let t = Table { store, collisions: 0 };
        proof {
            assert(store == vstd::array::spec_array_fill_for_copy_type::<Entry<A, B>, N>(blank));
            assert(t.slots() =~= Seq::new(N as nat, |i: int| None::<(A, B)>));
            assert(t@ =~= Map::<A::V, B>::empty());
        }
        t
    }

    /// Follows the probe of `key` to its first stop, for at most one cycle.
    /// Returns the slot of that stop and the number of advances made, or
    /// `None` where the probe never stops.
    fn find(&self, key: &A) -> (r: Option<(usize, usize)>)
        requires
            self.slots().len() == N,
        ensures
            match r {
                Some((idx, steps)) => {
                    &&& reaches(self.slots(), key@)
                    &&& steps == advances(self.slots(), key@)
                    &&& idx == target(self.slots(), key@)
                    &&& idx < N
                },
                None => !reaches(self.slots(), key@),
            },
    {
        if N == 0 {
            return None;
        }
        let hash = key.compute_hash();
        let stride = reverse_bits(hash) % N;
        let mut index = hash % N;
        let mut steps: usize = 0;
        while steps < N
            invariant
                N > 0,
                self.slots().len() == N,
                hash == A::hash_of(key@),
                stride == reversed(hash) % N as nat,
                index == probe(N as nat, hash, steps as nat),
                index < N,
                steps <= N,
                forall|j: nat| j < steps ==> !#[trigger] stops(self.slots(), key@, j),
            decreases N - steps,
        {
            let stop = match self.store[index].key {
                None => true,
                Some(k) => k.same_key(key),
            };
            if stop {
                proof {
                    assert(stops(self.slots(), key@, steps as nat));
                    lemma_first_stop_is_advances(self.slots(), key@, steps as nat);
                }
                return Some((index, steps));
            }
            proof {
                lemma_add_mod_noop_right(index as int, reversed(hash) as int, N as int);
                if index + stride >= N {
                    lemma_mod_add_multiples_vanish(index + stride - N, N as int);
                    lemma_small_mod((index + stride - N) as nat, N as nat);
                } else {
                    lemma_small_mod((index + stride) as nat, N as nat);
                }
            }
            index = if index >= N - stride {
                index - (N - stride)
            } else {
                index + stride
            };
            steps += 1;
        }
        proof {
            lemma_cycle_without_stop(self.slots(), key@);
        }
        None
    }

    /// The value stored under `key`, or `None` where the key is not in the
    /// table. The probe passes every slot that holds another key and ends at
    /// the key, at an empty slot, or after one full cycle.
    pub fn get(&self, key: &A) -> (r: Option<&B>)
        requires
            self.wf(),
        ensures
            r == (if self@.contains_key(key@) {
                Some(&self@[key@])
            } else {
                None
            }),
    {
        match self.find(key) {
            Some((idx, _)) => {
                proof {
                    lemma_lookup_at_target(self.slots(), key@);
                }
                if self.store[idx].key.is_some() {
                    Some(&self.store[idx].value)
                } else {
                    None
                }
            },
            None => {
                proof {
                    lemma_unreached_is_absent(self.slots(), key@);
                }
                None
            },
        }
    }

    /// Stores `value` under `key`, in place of the value that the key had if
    /// it was in the table already. The pair is written to the first slot on
    /// the key's probe that is empty or holds the key.
    ///
    /// The probe has to stop: a key whose probe meets other keys only can
    /// be given no slot. `try_insert` tests that first.
    pub fn insert(&mut self, key: A, value: B)
        requires
            old(self).wf(),
            reaches(old(self).slots(), key@),
        ensures
            final(self).wf(),
            final(self).slots() == with_pair(old(self).slots(), key, value),
            final(self)@ == old(self)@.insert(key@, value),
            final(self).collisions() == old(self).collisions(),
    {
        if let Some((idx, _)) = self.find(&key) {
            let e = &mut self.store[idx];
            e.key = Some(key);
            e.value = value;
            proof {
                lemma_settle(old(self).slots(), key, value);
                assert(self.slots() =~= with_pair(old(self).slots(), key, value));
            }
        }
    }

    /// A mutable reference to the value stored under `key`, or `None` where
    /// the key is not in the table. The probe is that of `get`.
    pub fn get_mut(&mut self, key: &A) -> (r: Option<&mut B>)
        requires
            old(self).wf(),
        ensures
            match r {
                Some(v) => {
                    let t = target(old(self).slots(), key@);
                    &&& old(self)@.contains_key(key@)
                    &&& *v == old(self)@[key@]
                    &&& final(self).wf()
                    &&& final(self).slots() == old(self).slots().update(
                        t,
                        Some((old(self).slots()[t].unwrap().0, *final(v))),
                    )
                    &&& final(self)@ == old(self)@.insert(key@, *final(v))
                    &&& final(self).collisions() == old(self).collisions()
                },
                None => !old(self)@.contains_key(key@) && *final(self) == *old(self),
            },
    {
        match self.find(key) {
            Some((idx, _)) => {
                proof {
                    lemma_lookup_at_target(self.slots(), key@);
                }
                if self.store[idx].key.is_some() {
                    let v = &mut self.store[idx].value;
                    proof {
                        let before = old(self).slots();
                        let k = before[idx as int].unwrap().0;
                        lemma_settle(before, k, *final(v));
                        assert(after_borrow(*self).slots() =~= before.update(
                            idx as int,
                            Some((k, *final(v))),
                        ));
                    }
                    Some(v)
                } else {
                    None
                }
            },
            None => {
                proof {
                    lemma_unreached_is_absent(self.slots(), key@);
                }
                None
            },
        }
    }

    /// What `emplace(key)` makes of the table `self`: `first` is the value
    /// that the returned reference points to, `last` the value that the
    /// caller leaves there, and `after` the table once the reference is
    /// given up.
    ///
    /// The reference points into the slot at which the key's probe stops. If
    /// the key is there already it keeps its key and `first` is its value;
    /// if the slot is empty, `key` moves in and `first` is a default value.
    /// The advances of the probe are added to the collision count.
    pub open spec fn emplaces(self, key: A, first: B, last: B, after: Self) -> bool {
        let t = target(self.slots(), key@);
        &&& match self.slots()[t] {
            Some((k, held)) => first == held && after.slots() == self.slots().update(
                t,
                Some((k, last)),
            ),
            None => is_default(first) && after.slots() == self.slots().update(
                t,
                Some((key, last)),
            ),
        }
        &&& self@.contains_key(key@) ==> first == self@[key@]
        &&& !self@.contains_key(key@) ==> is_default(first)
        &&& after.wf()
        &&& after@ == self@.insert(key@, last)
        &&& after.collisions() == self.collisions() + advances(self.slots(), key@)
        &&& after.collisions() >= self.collisions()
    }

    /// Whether `emplace(key)` can be called: the key's probe stops, and the
    /// collision count has room for its advances.
    pub open spec fn can_emplace(self, key: A) -> bool {
        &&& reaches(self.slots(), key@)
        &&& self.collisions() + advances(self.slots(), key@) <= usize::MAX
    }

    /// A mutable reference to the value stored under `key`. Where the key is
    /// not in the table yet, it is put there first, with a default value.
    ///
    /// The probe has to stop, as for `insert`, and the collision count must
    /// have room for its advances. `try_emplace` tests both first.
    pub fn emplace(&mut self, key: A) -> (v: &mut B)
        requires
            old(self).wf(),
            old(self).can_emplace(key),
        ensures
            old(self).emplaces(key, *v, *final(v), *final(self)),
    {
        match self.find(&key) {
            Some((idx, steps)) => {
                proof {
                    lemma_lookup_at_target(self.slots(), key@);
                }
                self.collisions = self.collisions + steps;
                if self.store[idx].key.is_none() {
                    let e = &mut self.store[idx];
                    e.key = Some(key);
                    e.value = B::default();
                }
                let ghost k = self.store@[idx as int].key.unwrap();
                let v = &mut self.store[idx].value;
                proof {
                    let before = old(self).slots();
                    lemma_settle(before, k, *final(v));
                    assert(after_borrow(*self).slots() =~= before.update(
                        idx as int,
                        Some((k, *final(v))),
                    ));
                }
                v
            },
            None => unreached(),
        }
    }

    /// `insert` where the key's probe stops; otherwise nothing is changed
    /// and the result is `false`.
    pub fn try_insert(&mut self, key: A, value: B) -> (done: bool)
        requires
            old(self).wf(),
        ensures
            done == reaches(old(self).slots(), key@),
            final(self).wf(),
            done ==> final(self).slots() == with_pair(old(self).slots(), key, value),
            done ==> final(self)@ == old(self)@.insert(key@, value),
            !done ==> *final(self) == *old(self),
            final(self).collisions() == old(self).collisions(),
    {
        if self.find(&key).is_some() {
            self.insert(key, value);
            true
        } else {
            false
        }
    }

    /// `emplace` where it can be called; otherwise nothing is changed and
    /// the result is `None`.
    pub fn try_emplace(&mut self, key: A) -> (r: Option<&mut B>)
        requires
            old(self).wf(),
        ensures
            match r {
                Some(v) => old(self).can_emplace(key) && old(self).emplaces(
                    key,
                    *v,
                    *final(v),
                    *final(self),
                ),
                None => !old(self).can_emplace(key) && *final(self) == *old(self),
            },
    {
        match self.find(&key) {
            Some((_, steps)) => {
                if steps <= usize::MAX - self.collisions {
                    Some(self.emplace(key))
                } else {
                    None
                }
            },
            None => None,
        }
    }

    /// The number of probe advances that `emplace` has made on this table.
    pub fn collision_count(&self) -> (c: usize)
        ensures
            c == self.collisions(),
    {
        self.collisions
    }

    /// An iterator over the resident pairs, in storage order.
    pub fn iter(&self) -> (it: TableIterator<'_, N, A, B>)
        ensures
            it.remaining() == entries(self.slots()),
    {
        let it = TableIterator { inner: self, index: 0 };
        proof {
            assert(self.slots().skip(0) =~= self.slots());
        }
        it
    }
}

impl<const N: usize, A: Hashed + Copy, B: Default + Copy> Default for Table<N, A, B> {
    /// A table as `new` makes it.
    fn default() -> (t: Self)
        ensures
            t.wf(),
            t.slots() == Seq::new(N as nat, |i: int| None::<(A, B)>),
            t@ == Map::<A::V, B>::empty(),
            t.collisions() == 0,
    {
        Table::new()
    }
}

/// A pass over the resident pairs of a table, in storage order.
pub struct TableIterator<'a, const N: usize, A, B> {
    inner: &'a Table<N, A, B>,
    index: usize,
}

impl<'a, const N: usize, A: Hashed + Copy, B: Default + Copy> TableIterator<'a, N, A, B> {
    /// The pairs that the iterator has not handed out yet, in the order in
    /// which it will.
    pub closed spec fn remaining(&self) -> Seq<(A, B)> {
        entries(
            self.inner.slots().skip(
                if self.index <= self.inner.slots().len() {
                    self.index as int
                } else {
                    self.inner.slots().len() as int
                },
            ),
        )
    }

    /// The next resident pair, or `None` once all have been handed out.
    pub fn next(&mut self) -> (r: Option<(A, B)>)
        ensures
            r == (if old(self).remaining().len() > 0 {
                Some(old(self).remaining()[0])
            } else {
                None
            }),
            final(self).remaining() == (if old(self).remaining().len() > 0 {
                old(self).remaining().drop_first()
            } else {
                old(self).remaining()
            }),
    {
        let store = &self.inner.store;
        while self.index < store.len()
            invariant
                store == &self.inner.store,
                self.inner == old(self).inner,
                self.remaining() == old(self).remaining(),
            decreases store.len() - self.index,
        {
            let at = self.index;
            let ghost rest = self.inner.slots().skip(at as int);
            proof {
                assert(rest.drop_first() =~= self.inner.slots().skip(at + 1));
            }
            self.index = at + 1;
            if let Some(key) = store[at].key {
                let pair = (key, store[at].value);
                proof {
                    assert(old(self).remaining() =~= seq![pair] + self.remaining());
                    assert(old(self).remaining().drop_first() =~= self.remaining());
                }
                return Some(pair);
            }
        }
        proof {
            let all = self.inner.slots();
            assert(all.skip(all.len() as int) =~= Seq::<Option<(A, B)>>::empty());
        }
        None
    }
}

} // verus!
