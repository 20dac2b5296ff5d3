//! The running statistic kept for each name: least, sum, number and
//! greatest of the values seen, in tenths.

use vstd::prelude::*;

verus! {

/// A statistic as a mathematical value.
pub struct Summary {
    pub min: int,
    pub sum: int,
    pub count: nat,
    pub max: int,
}

/// The smaller of two numbers.
pub open spec fn lesser(a: int, b: int) -> int {
    if a <= b {
        a
    } else {
        b
    }
}

/// The larger of two numbers.
pub open spec fn greater(a: int, b: int) -> int {
    if a >= b {
        a
    } else {
        b
    }
}

/// The statistic of no value at all: it changes no statistic of a `Stat`
/// that it is merged with.
pub open spec fn nothing() -> Summary {
    Summary { min: i32::MAX as int, sum: 0, count: 0, max: i32::MIN as int }
}

/// The statistic `s` after one more value, `x`, was seen.
pub open spec fn observe(s: Summary, x: int) -> Summary {
    Summary {
        min: lesser(s.min, x),
        sum: s.sum + x,
        count: s.count + 1,
        max: greater(s.max, x),
    }
}

/// The statistic of the values of `a` and of `b` together.
pub open spec fn merge(a: Summary, b: Summary) -> Summary {
    Summary {
        min: lesser(a.min, b.min),
        sum: a.sum + b.sum,
        count: a.count + b.count,
        max: greater(a.max, b.max),
    }
}

/// Merging does not depend on the order of the two statistics.
pub proof fn lemma_merge_commutes(a: Summary, b: Summary)
    ensures
        merge(a, b) == merge(b, a),
{
}

/// Merging three statistics does not depend on which two are merged first.
pub proof fn lemma_merge_associates(a: Summary, b: Summary, c: Summary)
    ensures
        merge(merge(a, b), c) == merge(a, merge(b, c)),
{
}

/// Least, sum, number and greatest of the values seen, each value and the
/// sum in tenths.
#[derive(Copy, Clone, Debug, PartialEq, Eq, Structural)]
pub struct Stat {
    pub min: i32,
    pub sum: i64,
    pub count: u32,
    pub max: i32,
}

impl View for Stat {
    type V = Summary;

    open spec fn view(&self) -> Summary {
        Summary {
            min: self.min as int,
            sum: self.sum as int,
            count: self.count as nat,
            max: self.max as int,
        }
    }
}

/// Merging with the statistic of no value leaves a `Stat` as it is.
pub proof fn lemma_merge_nothing(s: Stat)
    ensures
        merge(s@, nothing()) == s@,
        merge(nothing(), s@) == s@,
{
}

impl Stat {
    /// The `Stat` of no value: its view is `nothing()`.
    pub open spec fn blank() -> Stat {
        Stat { min: i32::MAX, sum: 0, count: 0, max: i32::MIN }
    }

    /// Whether one more value `x` fits: the number of values and the sum
    /// stay within their types.
    pub open spec fn fits(self, x: int) -> bool {
        &&& self.count < u32::MAX
        &&& i64::MIN <= self.sum + x <= i64::MAX
    }

    /// Whether the values of `rhs` fit in as well.
    pub open spec fn fits_with(self, rhs: Stat) -> bool {
        &&& self.count + rhs.count <= u32::MAX
        &&& i64::MIN <= self.sum + rhs.sum <= i64::MAX
    }

    /// This statistic after one more value, `x`, where it fits.
    pub open spec fn seen(self, x: int) -> Stat {
        Stat {
            min: lesser(self.min as int, x) as i32,
            sum: (self.sum + x) as i64,
            count: (self.count + 1) as u32,
            max: greater(self.max as int, x) as i32,
        }
    }

    /// This statistic with the values of `rhs` taken in, where they fit.
    pub open spec fn joined(self, rhs: Stat) -> Stat {
        Stat {
            min: lesser(self.min as int, rhs.min as int) as i32,
            sum: (self.sum + rhs.sum) as i64,
            count: (self.count + rhs.count) as u32,
            max: greater(self.max as int, rhs.max as int) as i32,
        }
    }

    /// Takes in one more value.
    pub fn add(&mut self, x: i32)
        requires
            old(self).fits(x as int),
        ensures
            *final(self) == old(self).seen(x as int),
            final(self)@ == observe(old(self)@, x as int),
    {
        self.min = if self.min < x {
            self.min
        } else {
            x
        };
        self.sum = self.sum + x as i64;
        self.count = self.count + 1;
        self.max = if self.max > x {
            self.max
        } else {
            x
        };
    }

    /// `add` where the value fits; otherwise nothing is changed and the
    /// result is `false`.
    pub fn try_add(&mut self, x: i32) -> (done: bool)
        ensures
            done == old(self).fits(x as int),
            done ==> *final(self) == old(self).seen(x as int),
            done ==> final(self)@ == observe(old(self)@, x as int),
            !done ==> *final(self) == *old(self),
    {
        let wide = x as i64;
        let in_range = if wide >= 0 {
            self.sum <= i64::MAX - wide
        } else {
            self.sum >= i64::MIN - wide
        };
        if self.count < u32::MAX && in_range {
            self.add(x);
            true
        } else {
            false
        }
    }

    /// Takes in the values that `rhs` stands for.
    pub fn merge_with(&mut self, rhs: &Stat)
        requires
            old(self).fits_with(*rhs),
        ensures
            *final(self) == old(self).joined(*rhs),
            final(self)@ == merge(old(self)@, rhs@),
    {
        self.min = if self.min < rhs.min {
            self.min
        } else {
            rhs.min
        };
        self.sum = self.sum + rhs.sum;
        self.count = self.count + rhs.count;
        self.max = if self.max > rhs.max {
            self.max
        } else {
            rhs.max
        };
    }

    /// `merge_with` where the values of `rhs` fit; otherwise nothing is
    /// changed and the result is `false`.
    pub fn try_merge_with(&mut self, rhs: &Stat) -> (done: bool)
        ensures
            done == old(self).fits_with(*rhs),
            done ==> *final(self) == old(self).joined(*rhs),
            done ==> final(self)@ == merge(old(self)@, rhs@),
            !done ==> *final(self) == *old(self),
    {
        let in_range = if rhs.sum >= 0 {
            self.sum <= i64::MAX - rhs.sum
        } else {
            self.sum >= i64::MIN - rhs.sum
        };
        if self.count <= u32::MAX - rhs.count && in_range {
            self.merge_with(rhs);
            true
        } else {
            false
        }
    }
}

/// Merging two statistics does not depend on their order: whether the
/// values fit, and what the merge gives.
pub proof fn lemma_joined_commutes(a: Stat, b: Stat)
    ensures
        a.fits_with(b) == b.fits_with(a),
        a.joined(b) == b.joined(a),
{
}

/// Merging three statistics does not depend on which two are merged first,
/// where the values of all three fit.
pub proof fn lemma_joined_associates(a: Stat, b: Stat, c: Stat)
    requires
        a.fits_with(b),
        b.fits_with(c),
        a.joined(b).fits_with(c),
    ensures
        a.fits_with(b.joined(c)),
        a.joined(b).joined(c) == a.joined(b.joined(c)),
{
}

/// What `merge_with` gives is the merge of the mathematical values, where
/// the values fit.
pub proof fn lemma_joined_view(a: Stat, b: Stat)
    requires
        a.fits_with(b),
    ensures
        a.joined(b)@ == merge(a@, b@),
{
}

impl Default for Stat {
    /// The statistic of no value.
    fn default() -> (r: Stat)
        ensures
            r == Stat::blank(),
    {
        Stat { min: i32::MAX, sum: 0, count: 0, max: i32::MIN }
    }
}

} // verus!
