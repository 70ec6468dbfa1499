//! Streams as the sequence of values they carry, one per clock tick, and
//! their running sums.

use vstd::prelude::*;

verus! {

/// A stream: the value it carries at each tick of its clock, in order.
#[derive(Clone, Debug)]
pub struct Stream<D> {
    values: Vec<D>,
}

/// The sum of the first `n` values of `s`.
pub open spec fn prefix_sum(s: Seq<i64>, n: nat) -> int
    decreases n,
{
    if n == 0 || n > s.len() {
        0
    } else {
        prefix_sum(s, (n - 1) as nat) + s[n - 1] as int
    }
}

/// The value at position `j` of a nested stream, zero past its end.
pub open spec fn value_at(s: Seq<i64>, j: int) -> int {
    if 0 <= j < s.len() {
        s[j] as int
    } else {
        0
    }
}

/// The sum of position `j` over the first `n` nested streams.
pub open spec fn column_sum(rows: Seq<Seq<i64>>, n: nat, j: int) -> int
    decreases n,
{
    if n == 0 || n > rows.len() {
        0
    } else {
        column_sum(rows, (n - 1) as nat, j) + value_at(rows[n - 1], j)
    }
}

/// The nested streams of a stream of vectors, as sequences.
pub open spec fn rows_of(s: Seq<Vec<i64>>) -> Seq<Seq<i64>> {
    s.map_values(|v: Vec<i64>| v@)
}

impl<D> Stream<D> {
    pub closed spec fn spec_values(&self) -> Seq<D> {
        self.values@
    }

    /// A stream that carries `values`, one per tick.
    pub fn from_values(values: Vec<D>) -> (r: Self)
        ensures
            r.spec_values() == values@,
    {
        Stream { values }
    }

    /// The values of the stream, one per tick.
    pub fn values(&self) -> (r: &Vec<D>)
        ensures
            r@ == self.spec_values(),
    {
        &self.values
    }
}

impl Stream<i64> {
    /// Integrates the stream: at each tick the sum of all values so far.
    pub fn integrate(&self) -> (r: Stream<i64>)
        requires
            forall|n: nat|
                n <= self.spec_values().len() ==> i64::MIN <= #[trigger] prefix_sum(
                    self.spec_values(),
                    n,
                ) <= i64::MAX,
        ensures
            r.spec_values().len() == self.spec_values().len(),
            forall|i: int|
                0 <= i < r.spec_values().len() ==> #[trigger] r.spec_values()[i] == prefix_sum(
                    self.spec_values(),
                    (i + 1) as nat,
                ),
    {
        let mut out: Vec<i64> = Vec::with_capacity(self.values.len());
        assert(self.spec_values() == self.values@);
        let mut acc: i64 = 0;
        let mut i: usize = 0;
        while i < self.values.len()
            invariant
                0 <= i <= self.values@.len(),
                out@.len() == i,
                self.spec_values() == self.values@,
                acc == prefix_sum(self.values@, i as nat),
                forall|n: nat|
                    n <= self.values@.len() ==> i64::MIN <= #[trigger] prefix_sum(
                        self.spec_values(),
                        n,
                    ) <= i64::MAX,
                forall|j: int|
                    0 <= j < i ==> #[trigger] out@[j] == prefix_sum(self.values@, (j + 1) as nat),
            decreases self.values@.len() - i,
        {
            assert(prefix_sum(self.values@, (i + 1) as nat) == acc + self.values@[i as int]);
            assert(i64::MIN <= prefix_sum(self.spec_values(), (i + 1) as nat) <= i64::MAX);
            acc = acc + self.values[i];
            out.push(acc);
            i = i + 1;
        }
        Stream { values: out }
    }
}

impl Stream<Vec<i64>> {
    /// Integrates a stream of nested streams: the value at tick `i`,
    /// position `j` is the sum of position `j` of the nested streams at
    /// ticks `0..=i`, each read as zero past its end. The result at tick `i`
    /// is as long as the input at tick `i`.
    pub fn integrate_nested(&self) -> (r: Stream<Vec<i64>>)
        requires
            forall|n: nat, j: int|
                n <= self.spec_values().len() ==> i64::MIN <= #[trigger] column_sum(
                    rows_of(self.spec_values()),
                    n,
                    j,
                ) <= i64::MAX,
        ensures
            r.spec_values().len() == self.spec_values().len(),
            forall|i: int|
                0 <= i < r.spec_values().len() ==> (#[trigger] r.spec_values()[i])@.len()
                    == self.spec_values()[i]@.len(),
            forall|i: int, j: int|
                0 <= i < r.spec_values().len() && 0 <= j < r.spec_values()[i]@.len()
                    ==> #[trigger] r.spec_values()[i]@[j] == column_sum(
                    rows_of(self.spec_values()),
                    (i + 1) as nat,
                    j,
                ),
    {
        let ghost rows = rows_of(self.spec_values());
        let mut out: Vec<Vec<i64>> = Vec::with_capacity(self.values.len());
        let mut acc: Vec<i64> = Vec::new();
        let mut i: usize = 0;
        while i < self.values.len()
            invariant
                0 <= i <= self.values@.len(),
                rows == rows_of(self.spec_values()),
                self.spec_values() == self.values@,
                out@.len() == i,
                forall|j: int| 0 <= j < acc@.len() ==> #[trigger] acc@[j] == column_sum(rows, i as nat, j),
                forall|j: int| j >= acc@.len() ==> #[trigger] column_sum(rows, i as nat, j) == 0,
                forall|n: nat, j: int|
                    n <= rows.len() ==> i64::MIN <= #[trigger] column_sum(rows, n, j) <= i64::MAX,
                forall|k: int| 0 <= k < i ==> (#[trigger] out@[k])@.len() == rows[k].len(),
                forall|k: int, j: int|
                    0 <= k < i && 0 <= j < out@[k]@.len() ==> #[trigger] out@[k]@[j]
                        == column_sum(rows, (k + 1) as nat, j),
            decreases self.values@.len() - i,
        {
            let row = &self.values[i];
            assert(row@ == rows[i as int]);
            while acc.len() < row.len()
                invariant
                    forall|j: int| 0 <= j < acc@.len() ==> #[trigger] acc@[j] == column_sum(rows, i as nat, j),
                    forall|j: int| j >= acc@.len() ==> #[trigger] column_sum(rows, i as nat, j) == 0,
                decreases row@.len() - acc@.len(),
            {
                acc.push(0);
            }
            let mut j: usize = 0;
            let mut next: Vec<i64> = Vec::with_capacity(row.len());
            while j < acc.len()
                invariant
                    0 <= j <= acc@.len(),
                    i < rows.len(),
                    row@ == rows[i as int],
                    acc@.len() >= row@.len(),
                    next@.len() == j,
                    forall|m: int| 0 <= m < acc@.len() ==> #[trigger] acc@[m] == column_sum(rows, i as nat, m),
                    forall|m: int| 0 <= m < j ==> #[trigger] next@[m] == column_sum(rows, (i + 1) as nat, m),
                    forall|n: nat, m: int|
                        n <= rows.len() ==> i64::MIN <= #[trigger] column_sum(rows, n, m) <= i64::MAX,
                decreases acc@.len() - j,
            {
                assert(column_sum(rows, (i + 1) as nat, j as int) == column_sum(rows, i as nat, j as int)
                    + value_at(rows[i as int], j as int));
                assert(i64::MIN <= column_sum(rows, (i + 1) as nat, j as int) <= i64::MAX);
                let v: i64 = if j < row.len() { row[j] } else { 0 };
                next.push(acc[j] + v);
                j = j + 1;
            }
            assert forall|m: int| m >= next@.len() implies #[trigger] column_sum(rows, (i + 1) as nat, m) == 0 by {
                assert(column_sum(rows, (i + 1) as nat, m) == column_sum(rows, i as nat, m)
                    + value_at(rows[i as int], m));
            }
            let mut cut: Vec<i64> = Vec::with_capacity(row.len());
            let mut m: usize = 0;
            while m < row.len()
                invariant
                    0 <= m <= row@.len(),
                    row@.len() <= next@.len(),
                    cut@ == next@.subrange(0, m as int),
                decreases row@.len() - m,
            {
                cut.push(next[m]);
                m = m + 1;
            }
            acc = next;
            out.push(cut);
            i = i + 1;
        }
        Stream { values: out }
    }
}

} // verus!
