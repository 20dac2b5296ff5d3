//! The statistics of a pass in the order in which they are shown.

use crate::aggregate::StatChunk;
use crate::probing::entries;
use crate::stat::Stat;
use vstd::prelude::*;

verus! {

/// Whether `a` comes before `b` or is `b`, in the order of `str`: the first
/// character in which they differ decides, and a text comes before its
/// extensions.
pub open spec fn text_le(a: Seq<char>, b: Seq<char>) -> bool
    decreases a.len(),
{
    if a.len() == 0 {
        true
    } else if b.len() == 0 {
        false
    } else if a[0] != b[0] {
        (a[0] as u32) < (b[0] as u32)
    } else {
        text_le(a.drop_first(), b.drop_first())
    }
}

/// `slice::sort_by_cached_key` with the name as the key: the pairs are put
/// in the order that `str` gives their names, which is that of the code
/// points of their characters, and they are the pairs they were.
#[verifier::external_body]
fn sort_by_name<'a>(pairs: &mut Vec<(&'a str, Stat)>)
    ensures
        final(pairs)@.to_multiset() == old(pairs)@.to_multiset(),
        forall|i: int, j: int|
            0 <= i < j < final(pairs)@.len() ==> text_le(
                (#[trigger] final(pairs)@[i]).0@,
                (#[trigger] final(pairs)@[j]).0@,
            ),
{
    pairs.sort_by_cached_key(|(key, _)| *key);
}

impl<'a> StatChunk<'a> {
    /// The names with their statistics, in the order of the names.
    pub fn sorted(&self) -> (pairs: Vec<(&'a str, Stat)>)
        ensures
            pairs@.to_multiset() == entries(self.data.slots()).to_multiset(),
            forall|i: int, j: int|
                0 <= i < j < pairs@.len() ==> text_le(
                    (#[trigger] pairs@[i]).0@,
                    (#[trigger] pairs@[j]).0@,
                ),
    {
        let mut pairs: Vec<(&'a str, Stat)> = Vec::new();
        let mut it = self.data.iter();
        loop
            invariant
                pairs@ + it.remaining() == entries(self.data.slots()),
            ensures
                pairs@ == entries(self.data.slots()),
            decreases it.remaining().len(),
        {
            match it.next() {
                Some(pair) => {
                    proof {
                        let left = it.remaining();
                        assert(pairs@.push(pair) + left =~= pairs@ + (seq![pair] + left));
                    }
                    pairs.push(pair);
                },
                None => {
                    proof {
                        assert(pairs@ + it.remaining() =~= pairs@);
                    }
                    break ;
                },
            }
        }
        sort_by_name(&mut pairs);
        pairs
    }
}

} // verus!
