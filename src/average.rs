//! The `(sum, count)` pair that an incremental average is built from.

use vstd::prelude::*;

verus! {

/// Intermediate representation of an average as a `(sum, count)` pair.
#[derive(Clone, Copy, Debug, PartialEq, Eq, Structural)]
pub struct Avg<T> {
    pub sum: T,
    pub count: isize,
}

/// Division that rounds toward zero, as Rust's `/` on signed integers does.
pub open spec fn div_toward_zero(x: int, d: int) -> int {
    if x >= 0 && d > 0 {
        x / d
    } else if x < 0 && d < 0 {
        (-x) / (-d)
    } else if x < 0 {
        -((-x) / d)
    } else {
        -(x / (-d))
    }
}

/// A quotient rounded toward zero fits in `i64` unless it is `i64::MIN / -1`.
proof fn lemma_div_toward_zero_bounded(x: int, d: int)
    requires
        d != 0,
        i64::MIN <= x <= i64::MAX,
        !(x == i64::MIN && d == -1),
    ensures
        i64::MIN <= div_toward_zero(x, d) <= i64::MAX,
{
    if d == 1 || d == -1 {
        assert(x / 1 == x);
        assert((-x) / 1 == -x);
    } else if x >= 0 && d > 0 {
        assert(0 <= x / d <= x) by (nonlinear_arith)
            requires
                x >= 0,
                d > 0,
        ;
    } else if x < 0 && d < 0 {
        assert(0 <= (-x) / (-d) <= -x / 2) by (nonlinear_arith)
            requires
                x < 0,
                d < -1,
        ;
    } else if x < 0 {
        assert(0 <= (-x) / d <= -x / 2) by (nonlinear_arith)
            requires
                x < 0,
                d > 1,
        ;
    } else {
        assert(0 <= x / (-d) <= x) by (nonlinear_arith)
            requires
                x >= 0,
                d < 0,
        ;
    }
}

impl<T> Avg<T> {
    pub fn new(sum: T, count: isize) -> (r: Self)
        ensures
            r.sum == sum,
            r.count == count,
    {
        Self { sum, count }
    }
}

impl Avg<i64> {
    /// Whether both the sum and the count are zero.
    pub fn is_zero(&self) -> (r: bool)
        ensures
            r == (self.sum == 0 && self.count == 0),
    {
        self.sum == 0 && self.count == 0
    }

    /// The additive identity.
    pub fn zero() -> (r: Self)
        ensures
            r.sum == 0,
            r.count == 0,
    {
        Self::new(0, 0)
    }

    /// Pair-wise sum.
    pub fn add_by_ref(&self, other: &Self) -> (r: Self)
        requires
            i64::MIN <= self.sum + other.sum <= i64::MAX,
            isize::MIN <= self.count + other.count <= isize::MAX,
        ensures
            r.sum == self.sum + other.sum,
            r.count == self.count + other.count,
    {
        Self::new(self.sum + other.sum, self.count + other.count)
    }

    /// Pair-wise sum, in place.
    pub fn add_assign_by_ref(&mut self, other: &Self)
        requires
            i64::MIN <= old(self).sum + other.sum <= i64::MAX,
            isize::MIN <= old(self).count + other.count <= isize::MAX,
        ensures
            final(self).sum == old(self).sum + other.sum,
            final(self).count == old(self).count + other.count,
    {
        self.sum = self.sum + other.sum;
        self.count = self.count + other.count;
    }

    /// Pair-wise negation.
    pub fn neg_by_ref(&self) -> (r: Self)
        requires
            self.sum != i64::MIN,
            self.count != isize::MIN,
        ensures
            r.sum == -self.sum,
            r.count == -self.count,
    {
        Self::new(-self.sum, -self.count)
    }

    /// Scales both components by `w`.
    pub fn mul_by_ref(&self, w: isize) -> (r: Self)
        requires
            i64::MIN <= self.sum * w <= i64::MAX,
            isize::MIN <= self.count * w <= isize::MAX,
        ensures
            r.sum == self.sum * w,
            r.count == self.count * w,
    {
        Self::new(self.sum * (w as i64), self.count * w)
    }

    /// The average itself: the sum divided by the count, rounded toward zero.
    pub fn average(&self) -> (r: i64)
        requires
            self.count != 0,
            !(self.sum == i64::MIN && self.count == -1),
        ensures
            r == div_toward_zero(self.sum as int, self.count as int),
    {
        let d = self.count as i64;
        proof {
            lemma_div_toward_zero_bounded(self.sum as int, d as int);
        }
        match self.sum.checked_div(d) {
            Some(q) => q,
            None => 0,
        }
    }
}

/// Turns each `(key, (sum, count), weight)` of an aggregate into
/// `(key, average, weight)`, keeping keys and weights in place.
pub fn apply_average(aggregate: &Vec<(i64, Avg<i64>, isize)>) -> (r: Vec<(i64, i64, isize)>)
    requires
        forall|i: int|
            0 <= i < aggregate@.len() ==> {
                let a = #[trigger] aggregate@[i].1;
                a.count != 0 && !(a.sum == i64::MIN && a.count == -1)
            },
    ensures
        r@.len() == aggregate@.len(),
        forall|i: int|
            0 <= i < r@.len() ==> {
                let a = #[trigger] aggregate@[i];
                r@[i] == (a.0, div_toward_zero(a.1.sum as int, a.1.count as int) as i64, a.2)
            },
{
    let mut out: Vec<(i64, i64, isize)> = Vec::with_capacity(aggregate.len());
    let mut i: usize = 0;
    while i < aggregate.len()
        invariant
            0 <= i <= aggregate@.len(),
            out@.len() == i,
            forall|i: int|
                0 <= i < aggregate@.len() ==> {
                    let a = #[trigger] aggregate@[i].1;
                    a.count != 0 && !(a.sum == i64::MIN && a.count == -1)
                },
            forall|j: int|
                0 <= j < i ==> {
                    let a = #[trigger] aggregate@[j];
                    out@[j] == (a.0, div_toward_zero(a.1.sum as int, a.1.count as int) as i64, a.2)
                },
        decreases aggregate@.len() - i,
    {
        let entry = aggregate[i];
        let avg = entry.1.average();
        out.push((entry.0, avg, entry.2));
        i = i + 1;
    }
    out
}

} // verus!
