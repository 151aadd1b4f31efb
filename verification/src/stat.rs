//! The running aggregate of one category: how many values it has seen, the
//! least and the greatest of them, and their sum.

use vstd::arithmetic::div_mod::lemma_fundamental_div_mod_converse;
use vstd::prelude::*;

verus! {

/// The most values one accumulator can hold. Below this bound a sum of 16-bit
/// values always fits in 64 bits.
pub const MAX_ROWS: u64 = 0xFFFF_FFFF_FFFF;

/// What an accumulator stands for, over unbounded integers.
pub struct Summary {
    pub count: nat,
    pub min: i16,
    pub max: i16,
    pub sum: int,
}

impl Summary {
    /// The summary of no values: the bounds are the two sentinels.
    pub open spec fn empty() -> Summary {
        Summary { count: 0, min: i16::MAX, max: i16::MIN, sum: 0 }
    }

    /// The summary after one more value.
    pub open spec fn add(self, value: i16) -> Summary {
        Summary {
            count: self.count + 1,
            min: if value < self.min { value } else { self.min },
            max: if value > self.max { value } else { self.max },
            sum: self.sum + value,
        }
    }

    /// The summary of the values of both sides.
    pub open spec fn merge(self, other: Summary) -> Summary {
        Summary {
            count: self.count + other.count,
            min: if other.min < self.min { other.min } else { self.min },
            max: if other.max > self.max { other.max } else { self.max },
            sum: self.sum + other.sum,
        }
    }

    /// The summary of a sequence of values, taken one after the other.
    pub open spec fn of(values: Seq<i16>) -> Summary
        decreases values.len(),
    {
        if values.len() == 0 {
            Summary::empty()
        } else {
            Summary::of(values.drop_last()).add(values.last())
        }
    }

    /// The mean in the unit of the values, rounded to the nearest integer, a
    /// half rounded up.
    pub open spec fn mean(self) -> int {
        (2 * self.sum + self.count) / (2 * self.count as int)
    }

    /// Whether the bounds and the sum can come from `count` 16-bit values.
    pub open spec fn consistent(self) -> bool {
        if self.count == 0 {
            self == Summary::empty()
        } else {
            &&& self.min <= self.max
            &&& self.min * self.count <= self.sum <= self.max * self.count
        }
    }
}

/// A fixed-size running aggregate of 16-bit values.
#[derive(Clone, Copy, Debug, PartialEq, Eq)]
pub struct Stat {
    count: u64,
    min: i16,
    max: i16,
    sum: i64,
}

impl View for Stat {
    type V = Summary;

    closed spec fn view(&self) -> Summary {
        Summary {
            count: self.count as nat,
            min: self.min,
            max: self.max,
            sum: self.sum as int,
        }
    }
}

impl Stat {
    #[verifier::type_invariant]
    spec fn inv(self) -> bool {
        self@.consistent() && self.count <= MAX_ROWS
    }

    /// An accumulator that has seen nothing.
    pub fn default() -> (s: Stat)
        ensures
            s@ == Summary::empty(),
    {
        Stat { count: 0, min: i16::MAX, max: i16::MIN, sum: 0 }
    }

    /// Takes one more value in. The accumulator must hold fewer than
    /// `MAX_ROWS` values.
    pub fn add(&mut self, value: i16)
        requires
            old(self)@.count < MAX_ROWS,
        ensures
            final(self)@ == old(self)@.add(value),
    {
        proof {
            use_type_invariant(&*self);
            lemma_add_consistent(self@, value);
            lemma_sum_bounds(self@);
        }
        let min: i16 = if value < self.min { value } else { self.min };
        let max: i16 = if value > self.max { value } else { self.max };
        *self = Stat { count: self.count + 1, min, max, sum: self.sum + value as i64 };
    }

    /// Takes in all that `other` has seen. Together the two must hold no more
    /// than `MAX_ROWS` values.
    pub fn merge(&mut self, other: &Stat)
        requires
            old(self)@.count + other@.count <= MAX_ROWS,
        ensures
            final(self)@ == old(self)@.merge(other@),
    {
        proof {
            use_type_invariant(&*self);
            use_type_invariant(other);
            lemma_merge_consistent(self@, other@);
            lemma_sum_bounds(self@);
            lemma_sum_bounds(other@);
        }
        let min: i16 = if other.min < self.min { other.min } else { self.min };
        let max: i16 = if other.max > self.max { other.max } else { self.max };
        *self = Stat { count: self.count + other.count, min, max, sum: self.sum + other.sum };
    }

    /// How many values were taken in. An accumulator never holds more than
    /// `MAX_ROWS` values, and what it holds is consistent.
    pub fn count(&self) -> (n: u64)
        ensures
            n == self@.count,
            n <= MAX_ROWS,
            self@.consistent(),
    {
        proof {
            use_type_invariant(self);
        }
        self.count
    }

    /// The sum of the values taken in.
    pub fn sum(&self) -> (n: i64)
        ensures
            n == self@.sum,
    {
        self.sum
    }

    /// The least value taken in; the sentinel of an empty accumulator is
    /// never handed out.
    pub fn min(&self) -> (r: Option<i16>)
        ensures
            r == if self@.count == 0 { None } else { Some(self@.min) },
    {
        if self.count == 0 { None } else { Some(self.min) }
    }

    /// The greatest value taken in; the sentinel of an empty accumulator is
    /// never handed out.
    pub fn max(&self) -> (r: Option<i16>)
        ensures
            r == if self@.count == 0 { None } else { Some(self@.max) },
    {
        if self.count == 0 { None } else { Some(self.max) }
    }

    /// The mean of the values taken in, rounded to the nearest integer, a half
    /// rounded up. It lies between the least and the greatest value.
    pub fn mean(&self) -> (r: Option<i16>)
        ensures
            self@.count == 0 ==> r is None,
            self@.count > 0 ==> r is Some && r->0 == self@.mean(),
            r is Some ==> self@.min <= r->0 <= self@.max,
    {
        if self.count == 0 {
            return None;
        }
        proof {
            use_type_invariant(self);
            lemma_mean_within_bounds(self@);
            lemma_sum_bounds(self@);
        }
        let ghost c = self.count as int;
        let ghost s = self.sum as int;
        if self.sum >= 0 {
            let a: u64 = self.sum as u64;
            let q: u64 = a / self.count;
            let r: u64 = a % self.count;
            let up: u64 = if 2 * r >= self.count { 1 } else { 0 };
            proof {
                assert(a == q * c + r && 0 <= r < c) by (nonlinear_arith)
                    requires q == a / (c as u64), r == a % (c as u64), c > 0, c == (c as u64);
                assert(2 * s + c == (q + up) * (2 * c) + (2 * r + c - 2 * c * up))
                    by (nonlinear_arith)
                    requires s == q * c + r;
                lemma_fundamental_div_mod_converse(
                    2 * s + c,
                    2 * c,
                    q + up,
                    2 * r + c - 2 * c * up,
                );
            }
            Some((q + up) as i16)
        } else {
            let a: u64 = (-self.sum) as u64;
            let q: u64 = a / self.count;
            let r: u64 = a % self.count;
            let up: u64 = if 2 * r > self.count { 1 } else { 0 };
            proof {
                assert(a == q * c + r && 0 <= r < c) by (nonlinear_arith)
                    requires q == a / (c as u64), r == a % (c as u64), c > 0, c == (c as u64);
                assert(2 * s + c == (-(q + up)) * (2 * c) + (c - 2 * r + 2 * c * up))
                    by (nonlinear_arith)
                    requires -s == q * c + r;
                lemma_fundamental_div_mod_converse(
                    2 * s + c,
                    2 * c,
                    -(q + up),
                    c - 2 * r + 2 * c * up,
                );
            }
            let m: i64 = -((q + up) as i64);
            Some(m as i16)
        }
    }
}

/// A consistent summary has a sum within 2^15 times its count.
pub proof fn lemma_sum_bounds(s: Summary)
    requires
        s.consistent(),
    ensures
        -32768 * s.count <= s.sum <= 32767 * s.count,
{
    let c = s.count as int;
    if s.count > 0 {
        assert(-32768 * c <= s.min * c) by (nonlinear_arith)
            requires
                -32768 <= s.min,
                c >= 0,
        ;
        assert(s.max * c <= 32767 * c) by (nonlinear_arith)
            requires
                s.max <= 32767,
                c >= 0,
        ;
    }
}

/// One more value keeps a summary consistent.
pub proof fn lemma_add_consistent(s: Summary, value: i16)
    requires
        s.consistent(),
    ensures
        s.add(value).consistent(),
{
    let c = s.count as int;
    let t = s.add(value);
    if s.count > 0 {
        assert(t.min * c <= s.min * c) by (nonlinear_arith)
            requires
                t.min <= s.min,
                c >= 0,
        ;
        assert(s.max * c <= t.max * c) by (nonlinear_arith)
            requires
                s.max <= t.max,
                c >= 0,
        ;
        assert(t.min * (c + 1) == t.min * c + t.min) by (nonlinear_arith);
        assert(t.max * (c + 1) == t.max * c + t.max) by (nonlinear_arith);
    }
}

/// Merging two consistent summaries gives a consistent one.
pub proof fn lemma_merge_consistent(a: Summary, b: Summary)
    requires
        a.consistent(),
        b.consistent(),
    ensures
        a.merge(b).consistent(),
{
    let m = a.merge(b);
    let ca = a.count as int;
    let cb = b.count as int;
    if ca > 0 {
        assert(m.min * ca <= a.min * ca) by (nonlinear_arith)
            requires m.min <= a.min, ca >= 0;
        assert(a.max * ca <= m.max * ca) by (nonlinear_arith)
            requires a.max <= m.max, ca >= 0;
    }
    if cb > 0 {
        assert(m.min * cb <= b.min * cb) by (nonlinear_arith)
            requires m.min <= b.min, cb >= 0;
        assert(b.max * cb <= m.max * cb) by (nonlinear_arith)
            requires b.max <= m.max, cb >= 0;
    }
    assert(m.min * (ca + cb) == m.min * ca + m.min * cb) by (nonlinear_arith);
    assert(m.max * (ca + cb) == m.max * ca + m.max * cb) by (nonlinear_arith);
}

/// The rounded mean of a summary lies between its least and its greatest value.
pub proof fn lemma_mean_within_bounds(s: Summary)
    requires
        s.consistent(),
        s.count > 0,
    ensures
        s.min <= s.mean() <= s.max,
{
    let c = s.count as int;
    let x = 2 * s.sum + c;
    let d = 2 * c;
    let m = s.mean();
    vstd::arithmetic::div_mod::lemma_fundamental_div_mod(x, d);
    let r = x % d;
    assert(0 <= r < d) by (nonlinear_arith)
        requires r == x % d, d > 0;
    assert(x == d * m + r);
    assert(m >= s.min) by (nonlinear_arith)
        requires x == 2 * c * m + r, r < 2 * c, c > 0, s.min * c <= s.sum, x == 2 * s.sum + c;
    assert(m <= s.max) by (nonlinear_arith)
        requires x == 2 * c * m + r, 0 <= r, c > 0, s.sum <= s.max * c, x == 2 * s.sum + c;
}

/// Merging does not depend on which side comes first.
pub proof fn lemma_merge_commutative(a: Summary, b: Summary)
    ensures
        a.merge(b) == b.merge(a),
{
}

/// Merging does not depend on how the sides are grouped.
pub proof fn lemma_merge_associative(a: Summary, b: Summary, c: Summary)
    ensures
        a.merge(b).merge(c) == a.merge(b.merge(c)),
{
}

/// Three summaries merged in any of the six orders give one and the same
/// count, minimum, maximum and sum.
pub proof fn lemma_merge_any_order(a: Summary, b: Summary, c: Summary)
    ensures
        a.merge(b).merge(c) == a.merge(c).merge(b),
        a.merge(b).merge(c) == b.merge(a).merge(c),
        a.merge(b).merge(c) == b.merge(c).merge(a),
        a.merge(b).merge(c) == c.merge(a).merge(b),
        a.merge(b).merge(c) == c.merge(b).merge(a),
{
}

/// Two accumulators that stand for the same summary are the same value.
pub proof fn lemma_view_determines(a: Stat, b: Stat)
    requires
        a@ == b@,
    ensures
        a == b,
{
}

/// Taking a value in after a merge is the same as taking it in on either side
/// before.
pub proof fn lemma_add_merge(a: Summary, b: Summary, value: i16)
    ensures
        a.merge(b).add(value) == a.merge(b.add(value)),
        a.merge(b).add(value) == a.add(value).merge(b),
{
}

/// What `Summary::of` is, said directly: the count is the length, the sum is
/// bounded by it, no value lies outside the bounds, and where there is a
/// value, both bounds are values of the sequence.
pub proof fn lemma_of_is_exact(values: Seq<i16>)
    ensures
        Summary::of(values).count == values.len(),
        Summary::of(values).consistent(),
        forall|i: int|
            0 <= i < values.len() ==> Summary::of(values).min <= #[trigger] values[i]
                <= Summary::of(values).max,
        values.len() > 0 ==> exists|i: int|
            0 <= i < values.len() && #[trigger] values[i] == Summary::of(values).min,
        values.len() > 0 ==> exists|i: int|
            0 <= i < values.len() && #[trigger] values[i] == Summary::of(values).max,
    decreases values.len(),
{
    if values.len() > 0 {
        let front = values.drop_last();
        let last = values.last();
        lemma_of_is_exact(front);
        lemma_add_consistent(Summary::of(front), last);
        let s = Summary::of(values);
        assert forall|i: int| 0 <= i < values.len() implies s.min <= #[trigger] values[i]
            <= s.max by {
            if i < front.len() {
                assert(values[i] == front[i]);
            }
        }
        if front.len() == 0 {
            assert(values[values.len() - 1] == s.min);
            assert(values[values.len() - 1] == s.max);
        } else {
            let i = choose|i: int| 0 <= i < front.len() && #[trigger] front[i] == Summary::of(front).min;
            let j = choose|j: int| 0 <= j < front.len() && #[trigger] front[j] == Summary::of(front).max;
            assert(values[i] == front[i] && values[j] == front[j]);
            assert(values[values.len() - 1] == last);
            let k = if last < Summary::of(front).min { values.len() - 1 } else { i };
            assert(values[k] == s.min);
            let l = if last > Summary::of(front).max { values.len() - 1 } else { j };
            assert(values[l] == s.max);
        }
    }
}

/// The summary of two sequences joined is the merge of their summaries.
pub proof fn lemma_of_concat(a: Seq<i16>, b: Seq<i16>)
    ensures
        Summary::of(a + b) == Summary::of(a).merge(Summary::of(b)),
    decreases b.len(),
{
    if b.len() == 0 {
        assert(a + b =~= a);
    } else {
        assert((a + b).drop_last() =~= a + b.drop_last());
        assert((a + b).last() == b.last());
        lemma_of_concat(a, b.drop_last());
    }
}

} // verus!
