//! The aggregate kept for one key, and the monoid it forms under merging.

use vstd::prelude::*;

verus! {

/// The smaller of two integers.
pub open spec fn lesser(a: int, b: int) -> int {
    if a <= b {
        a
    } else {
        b
    }
}

/// The larger of two integers.
pub open spec fn greater(a: int, b: int) -> int {
    if a >= b {
        a
    } else {
        b
    }
}

/// The mathematical content of an [`Aggregate`]: how many values were seen,
/// their sum, and the smallest and largest of them, all in tenths.
pub struct Summary {
    /// How many values were seen.
    pub count: nat,
    /// The sum of the values.
    pub sum: int,
    /// The smallest value, or the largest `i64` if there is none.
    pub min: int,
    /// The largest value, or the smallest `i64` if there is none.
    pub max: int,
}

impl Summary {
    /// The summary of no values at all. Its `min` and `max` are the sentinels
    /// that every `i64` value replaces.
    pub open spec fn empty() -> Summary {
        Summary { count: 0, sum: 0, min: i64::MAX as int, max: i64::MIN as int }
    }

    /// The summary of the single value `v`.
    pub open spec fn single(v: int) -> Summary {
        Summary { count: 1, sum: v, min: v, max: v }
    }

    /// The summary after one more value `v` has been seen.
    pub open spec fn insert(self, v: int) -> Summary {
        Summary {
            count: self.count + 1,
            sum: self.sum + v,
            min: lesser(self.min, v),
            max: greater(self.max, v),
        }
    }

    /// The summary of the values of `self` and of `other` together.
    pub open spec fn merge(self, other: Summary) -> Summary {
        Summary {
            count: self.count + other.count,
            sum: self.sum + other.sum,
            min: lesser(self.min, other.min),
            max: greater(self.max, other.max),
        }
    }

    /// Whether `min` and `max` lie in the range that an `i64` can hold.
    pub open spec fn bounded(self) -> bool {
        &&& i64::MIN <= self.min <= i64::MAX
        &&& i64::MIN <= self.max <= i64::MAX
    }

    /// Whether this summary can be the summary of some `i64` values: without
    /// values it is the empty one; with values, `min` is at most `max`, both
    /// fit an `i64`, and the sum lies between `count` times `min` and `count`
    /// times `max`.
    pub open spec fn wf(self) -> bool {
        if self.count == 0 {
            self == Summary::empty()
        } else {
            &&& self.bounded()
            &&& self.min <= self.max
            &&& self.count * self.min <= self.sum <= self.count * self.max
        }
    }
}

/// Count, sum, minimum and maximum of the values recorded for one key. Values
/// are fixed-point numbers scaled by ten, so `-57.8` is held as `-578`.
#[derive(Clone, Copy, Debug, PartialEq, Eq, Structural)]
pub struct Aggregate {
    /// How many values were recorded.
    pub count: u64,
    /// The sum of the values.
    pub sum: i64,
    /// The smallest value; `i64::MAX` while there is none.
    pub min: i64,
    /// The largest value; `i64::MIN` while there is none.
    pub max: i64,
}

impl View for Aggregate {
    type V = Summary;

    /// The four fields as mathematical integers.
    open spec fn view(&self) -> Summary {
        Summary {
            count: self.count as nat,
            sum: self.sum as int,
            min: self.min as int,
            max: self.max as int,
        }
    }
}

impl Aggregate {
    /// Whether the aggregate summarises some collection of values.
    pub open spec fn wf(&self) -> bool {
        self@.wf()
    }

    /// The aggregate of the single value `num`.
    pub fn single(num: i64) -> (r: Aggregate)
        ensures
            r@ == Summary::single(num as int),
            r.wf(),
    {
        let r = Aggregate { count: 1, sum: num, min: num, max: num };
        proof {
            lemma_single_wf(num as int);
        }
        r
    }

    /// Records one more value.
    pub fn insert(&mut self, num: i64)
        requires
            old(self).count < u64::MAX,
            i64::MIN <= old(self).sum + num <= i64::MAX,
        ensures
            final(self)@ == old(self)@.insert(num as int),
            old(self).wf() ==> final(self).wf(),
    {
        proof {
            if self.wf() {
                lemma_insert_wf(self@, num as int);
            }
        }
        self.count += 1;
        self.sum += num;
        if num < self.min {
            self.min = num;
        }
        if num > self.max {
            self.max = num;
        }
    }

    /// Takes in everything that `other` has recorded.
    pub fn merge(&mut self, other: Aggregate)
        requires
            old(self).count + other.count <= u64::MAX,
            i64::MIN <= old(self).sum + other.sum <= i64::MAX,
        ensures
            final(self)@ == old(self)@.merge(other@),
            old(self).wf() && other.wf() ==> final(self).wf(),
    {
        proof {
            if self.wf() && other.wf() {
                lemma_merge_wf(self@, other@);
            }
        }
        self.count += other.count;
        self.sum += other.sum;
        if other.min < self.min {
            self.min = other.min;
        }
        if other.max > self.max {
            self.max = other.max;
        }
    }
}

impl Default for Aggregate {
    /// The aggregate of no values: the identity of [`Aggregate::merge`].
    fn default() -> (r: Aggregate)
        ensures
            r@ == Summary::empty(),
            r.wf(),
    {
        Aggregate { count: 0, sum: 0, min: i64::MAX, max: i64::MIN }
    }
}

/// The summary of a single value is well formed.
pub proof fn lemma_single_wf(v: int)
    requires
        i64::MIN <= v <= i64::MAX,
    ensures
        Summary::single(v).wf(),
        Summary::single(v) == Summary::empty().insert(v),
{
    assert(1 * v == v) by (nonlinear_arith);
}

/// Recording a value in range keeps a summary well formed.
pub proof fn lemma_insert_wf(s: Summary, v: int)
    requires
        s.wf(),
        i64::MIN <= v <= i64::MAX,
    ensures
        s.insert(v).wf(),
{
    let t = s.insert(v);
    if s.count == 0 {
        assert(t == Summary::single(v));
        assert(1 * v == v) by (nonlinear_arith);
    } else {
        assert(s.count * t.min <= s.count * s.min) by (nonlinear_arith)
            requires
                t.min <= s.min,
                s.count >= 0,
        ;
        assert(s.count * t.max >= s.count * s.max) by (nonlinear_arith)
            requires
                t.max >= s.max,
                s.count >= 0,
        ;
        assert((s.count + 1) * t.min == s.count * t.min + t.min) by (nonlinear_arith);
        assert((s.count + 1) * t.max == s.count * t.max + t.max) by (nonlinear_arith);
    }
}

/// Merging keeps summaries well formed.
pub proof fn lemma_merge_wf(a: Summary, b: Summary)
    requires
        a.wf(),
        b.wf(),
    ensures
        a.merge(b).wf(),
{
    let t = a.merge(b);
    if a.count > 0 && b.count > 0 {
        assert(a.count * t.min <= a.count * a.min) by (nonlinear_arith)
            requires
                t.min <= a.min,
                a.count >= 0,
        ;
        assert(b.count * t.min <= b.count * b.min) by (nonlinear_arith)
            requires
                t.min <= b.min,
                b.count >= 0,
        ;
        assert(a.count * t.max >= a.count * a.max) by (nonlinear_arith)
            requires
                t.max >= a.max,
                a.count >= 0,
        ;
        assert(b.count * t.max >= b.count * b.max) by (nonlinear_arith)
            requires
                t.max >= b.max,
                b.count >= 0,
        ;
        assert((a.count + b.count) * t.min == a.count * t.min + b.count * t.min)
            by (nonlinear_arith);
        assert((a.count + b.count) * t.max == a.count * t.max + b.count * t.max)
            by (nonlinear_arith);
    } else if a.count > 0 {
        assert(t == a);
    } else {
        assert(t == b);
    }
}

/// Merging two summaries gives the same result in either order.
pub proof fn lemma_merge_commutative(a: Summary, b: Summary)
    ensures
        a.merge(b) == b.merge(a),
{
}

/// Merging three summaries gives the same result however they are grouped.
pub proof fn lemma_merge_associative(a: Summary, b: Summary, c: Summary)
    ensures
        a.merge(b).merge(c) == a.merge(b.merge(c)),
{
}

/// The empty summary is the identity of merging, on both sides, for every
/// summary whose extremes fit an `i64`.
pub proof fn lemma_merge_identity(a: Summary)
    requires
        a.bounded(),
    ensures
        a.merge(Summary::empty()) == a,
        Summary::empty().merge(a) == a,
{
}

/// Recording a value is the same as merging with the summary of that value.
pub proof fn lemma_insert_is_merge_single(a: Summary, v: int)
    ensures
        a.insert(v) == a.merge(Summary::single(v)),
{
}

} // verus!
