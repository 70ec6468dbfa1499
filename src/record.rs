//! The records a trace keeps in its partition, their mathematical model,
//! and the order on values.
//!
//! A trace's keys are `u64`, its values byte strings ordered
//! lexicographically, its times `u64` ordered numerically, and its weights
//! `i64` added with wrap-around.

use vstd::prelude::*;

verus! {

/// The `(time, weight)` pairs recorded for one value.
pub type TimeWeights = Vec<(u64, i64)>;

/// The values recorded for one key, each with its `(time, weight)` pairs.
pub type ValueList = Vec<(Vec<u8>, TimeWeights)>;

/// What the partition stores for a key.
#[derive(Clone, Debug, PartialEq, Eq)]
pub enum PersistedValue {
    Values(ValueList),
    Tombstone,
}

/// A pending change to the record of a key.
#[derive(Clone, Debug, PartialEq, Eq)]
pub enum MergeOp {
    /// Updates to fold into the record.
    Insert(ValueList),
    /// Collapses every time after the given one onto it.
    RecedeTo(u64),
}

/// Model of a value's `(time, weight)` list.
pub type TimesModel = Seq<(u64, i64)>;

/// Model of one value with its `(time, weight)` list.
pub type EntryModel = (Seq<u8>, TimesModel);

/// Model of a value list.
pub type ListModel = Seq<EntryModel>;

pub open spec fn entry_view(e: (Vec<u8>, TimeWeights)) -> EntryModel {
    (e.0@, e.1@)
}

pub open spec fn list_view(l: Seq<(Vec<u8>, TimeWeights)>) -> ListModel {
    l.map_values(|e: (Vec<u8>, TimeWeights)| entry_view(e))
}

/// The value list that a persisted value stands for; a tombstone stands for
/// the empty list.
pub open spec fn pv_list(pv: PersistedValue) -> ListModel {
    match pv {
        PersistedValue::Values(l) => list_view(l@),
        PersistedValue::Tombstone => Seq::empty(),
    }
}

/// Lexicographic order on byte strings, the order of `Vec<u8>`.
pub open spec fn bytes_lt(a: Seq<u8>, b: Seq<u8>) -> bool
    decreases a.len(),
{
    if a.len() == 0 {
        b.len() > 0
    } else if b.len() == 0 {
        false
    } else if a[0] != b[0] {
        a[0] < b[0]
    } else {
        bytes_lt(a.drop_first(), b.drop_first())
    }
}

/// Sum of two weights with wrap-around, as `i64::wrapping_add` computes it.
pub open spec fn wadd(a: i64, b: i64) -> i64 {
    if a + b > i64::MAX {
        (a + b - 0x1_0000_0000_0000_0000) as i64
    } else if a + b < i64::MIN {
        (a + b + 0x1_0000_0000_0000_0000) as i64
    } else {
        (a + b) as i64
    }
}

/// Times strictly increasing and no weight zero.
pub open spec fn times_wf(tws: TimesModel) -> bool {
    &&& forall|i: int, j: int| 0 <= i < j < tws.len() ==> tws[i].0 < tws[j].0
    &&& forall|i: int| 0 <= i < tws.len() ==> #[trigger] tws[i].1 != 0
}

/// Values strictly increasing, each with a non-empty well-formed list.
pub open spec fn list_wf(l: ListModel) -> bool {
    &&& forall|i: int, j: int| 0 <= i < j < l.len() ==> bytes_lt(l[i].0, l[j].0)
    &&& forall|i: int| 0 <= i < l.len() ==> #[trigger] l[i].1.len() > 0 && times_wf(l[i].1)
}

/// A persisted value is well formed when its list is, and a list of values
/// is never empty (an empty one is a tombstone).
pub open spec fn pv_wf(pv: PersistedValue) -> bool {
    match pv {
        PersistedValue::Values(l) => l@.len() > 0 && list_wf(list_view(l@)),
        PersistedValue::Tombstone => true,
    }
}

/// A merge operation is well formed when the list it inserts is.
pub open spec fn op_wf(op: MergeOp) -> bool {
    match op {
        MergeOp::Insert(l) => list_wf(list_view(l@)),
        MergeOp::RecedeTo(_) => true,
    }
}

/// The weight recorded at time `t`, zero when there is none.
pub open spec fn tw_weight(tws: TimesModel, t: u64) -> i64
    decreases tws.len(),
{
    if tws.len() == 0 {
        0
    } else if tws.last().0 == t {
        tws.last().1
    } else {
        tw_weight(tws.drop_last(), t)
    }
}

/// The `(time, weight)` list recorded for value `v`, empty when there is none.
pub open spec fn times_of(l: ListModel, v: Seq<u8>) -> TimesModel
    decreases l.len(),
{
    if l.len() == 0 {
        Seq::empty()
    } else if l.last().0 == v {
        l.last().1
    } else {
        times_of(l.drop_last(), v)
    }
}

/// The weight recorded for value `v` at time `t`, zero when there is none.
pub open spec fn list_weight(l: ListModel, v: Seq<u8>, t: u64) -> i64 {
    tw_weight(times_of(l, v), t)
}

pub proof fn lemma_bytes_lt_irreflexive(a: Seq<u8>)
    ensures
        !bytes_lt(a, a),
    decreases a.len(),
{
    if a.len() > 0 {
        lemma_bytes_lt_irreflexive(a.drop_first());
    }
}

pub proof fn lemma_bytes_lt_transitive(a: Seq<u8>, b: Seq<u8>, c: Seq<u8>)
    requires
        bytes_lt(a, b),
        bytes_lt(b, c),
    ensures
        bytes_lt(a, c),
    decreases a.len(),
{
    if a.len() > 0 && b.len() > 0 && c.len() > 0 && a[0] == b[0] && b[0] == c[0] {
        lemma_bytes_lt_transitive(a.drop_first(), b.drop_first(), c.drop_first());
    }
}

pub proof fn lemma_bytes_lt_total(a: Seq<u8>, b: Seq<u8>)
    requires
        a != b,
    ensures
        bytes_lt(a, b) || bytes_lt(b, a),
    decreases a.len(),
{
    if a.len() > 0 && b.len() > 0 && a[0] == b[0] {
        assert(a =~= seq![a[0]] + a.drop_first());
        assert(b =~= seq![b[0]] + b.drop_first());
        lemma_bytes_lt_total(a.drop_first(), b.drop_first());
    } else if a.len() == 0 && b.len() == 0 {
        assert(a =~= b);
    }
}

proof fn lemma_bytes_lt_skip(a: Seq<u8>, b: Seq<u8>, i: int)
    requires
        0 <= i <= a.len(),
        i <= b.len(),
        a.subrange(0, i) == b.subrange(0, i),
    ensures
        bytes_lt(a, b) == bytes_lt(a.subrange(i, a.len() as int), b.subrange(i, b.len() as int)),
    decreases i,
{
    if i == 0 {
        assert(a.subrange(0, a.len() as int) =~= a);
        assert(b.subrange(0, b.len() as int) =~= b);
    } else {
        assert(a[0] == a.subrange(0, i)[0]);
        assert(b[0] == b.subrange(0, i)[0]);
        assert(a.drop_first().subrange(0, i - 1) =~= a.subrange(0, i).drop_first());
        assert(b.drop_first().subrange(0, i - 1) =~= b.subrange(0, i).drop_first());
        lemma_bytes_lt_skip(a.drop_first(), b.drop_first(), i - 1);
        assert(a.drop_first().subrange(i - 1, a.len() - 1) =~= a.subrange(i, a.len() as int));
        assert(b.drop_first().subrange(i - 1, b.len() - 1) =~= b.subrange(i, b.len() as int));
    }
}

/// A copy of a byte string.
pub fn copy_bytes(v: &Vec<u8>) -> (r: Vec<u8>)
    ensures
        r@ == v@,
{
    let mut out: Vec<u8> = Vec::with_capacity(v.len());
    let mut i: usize = 0;
    while i < v.len()
        invariant
            0 <= i <= v@.len(),
            out@ == v@.take(i as int),
        decreases v@.len() - i,
    {
        out.push(v[i]);
        i = i + 1;
        assert(out@ =~= v@.take(i as int));
    }
    assert(v@.take(i as int) =~= v@);
    out
}

/// A copy of a `(time, weight)` list.
pub fn copy_times(v: &TimeWeights) -> (r: TimeWeights)
    ensures
        r@ == v@,
{
    let mut out: TimeWeights = Vec::with_capacity(v.len());
    let mut i: usize = 0;
    while i < v.len()
        invariant
            0 <= i <= v@.len(),
            out@ == v@.take(i as int),
        decreases v@.len() - i,
    {
        out.push(v[i]);
        i = i + 1;
        assert(out@ =~= v@.take(i as int));
    }
    assert(v@.take(i as int) =~= v@);
    out
}

/// A copy of a value list.
pub fn copy_list(v: &ValueList) -> (r: ValueList)
    ensures
        list_view(r@) == list_view(v@),
{
    let mut out: ValueList = Vec::with_capacity(v.len());
    let mut i: usize = 0;
    while i < v.len()
        invariant
            0 <= i <= v@.len(),
            list_view(out@) == list_view(v@).take(i as int),
        decreases v@.len() - i,
    {
        let e = (copy_bytes(&v[i].0), copy_times(&v[i].1));
        proof {
            assert(list_view(out@.push(e)) =~= list_view(out@).push(entry_view(e)));
        }
        out.push(e);
        i = i + 1;
        assert(list_view(out@) =~= list_view(v@).take(i as int));
    }
    assert(list_view(v@).take(i as int) =~= list_view(v@));
    out
}

/// Appending an entry above every value keeps a list well formed.
pub proof fn lemma_list_wf_push(l: ListModel, x: EntryModel)
    requires
        list_wf(l),
        l.len() > 0 ==> bytes_lt(l.last().0, x.0),
        x.1.len() > 0,
        times_wf(x.1),
    ensures
        list_wf(l.push(x)),
{
    let p = l.push(x);
    assert forall|i: int, j: int| 0 <= i < j < p.len() implies bytes_lt(p[i].0, p[j].0) by {
        if j == l.len() && i < l.len() - 1 {
            lemma_bytes_lt_transitive(l[i].0, l.last().0, x.0);
        }
    }
    assert forall|i: int| 0 <= i < p.len() implies #[trigger] p[i].1.len() > 0 && times_wf(p[i].1) by {
        if i < l.len() {
            assert(p[i] == l[i]);
        }
    }
}

/// Compares two byte strings: negative, zero or positive as `a` is below,
/// equal to or above `b`.
pub fn compare_bytes(a: &Vec<u8>, b: &Vec<u8>) -> (r: i8)
    ensures
        (r < 0) == bytes_lt(a@, b@),
        (r == 0) == (a@ == b@),
        (r > 0) == bytes_lt(b@, a@),
{
    let mut i: usize = 0;
    while i < a.len() && i < b.len()
        invariant
            0 <= i <= a@.len(),
            i <= b@.len(),
            a@.subrange(0, i as int) == b@.subrange(0, i as int),
        decreases a@.len() - i,
    {
        if a[i] != b[i] {
            proof {
                lemma_bytes_lt_skip(a@, b@, i as int);
                lemma_bytes_lt_skip(b@, a@, i as int);
                assert(a@.subrange(i as int, a@.len() as int)[0] == a@[i as int]);
                assert(b@.subrange(i as int, b@.len() as int)[0] == b@[i as int]);
                assert(a@[i as int] != b@[i as int]);
            }
            if a[i] < b[i] {
                return -1;
            } else {
                return 1;
            }
        }
        assert(a@.subrange(0, i + 1) =~= a@.subrange(0, i as int).push(a@[i as int]));
        assert(b@.subrange(0, i + 1) =~= b@.subrange(0, i as int).push(b@[i as int]));
        i = i + 1;
    }
    proof {
        lemma_bytes_lt_skip(a@, b@, i as int);
        lemma_bytes_lt_skip(b@, a@, i as int);
        if a@.len() == b@.len() {
            assert(a@ =~= a@.subrange(0, i as int));
            assert(b@ =~= b@.subrange(0, i as int));
        } else if i == a@.len() {
            assert(b@.subrange(0, i as int) != b@);
        } else {
            assert(a@.subrange(0, i as int) != a@);
        }
    }
    if a.len() < b.len() {
        -1
    } else if a.len() == b.len() {
        0
    } else {
        1
    }
}

/// Wrapped sums may be grouped either way.
pub proof fn lemma_wadd_assoc(a: i64, b: i64, c: i64)
    ensures
        wadd(wadd(a, b), c) == wadd(a, wadd(b, c)),
{
}

/// Wrapped sums may be taken in either order.
pub proof fn lemma_wadd_comm(a: i64, b: i64)
    ensures
        wadd(a, b) == wadd(b, a),
{
}

/// Whether a `(time, weight)` list is well formed.
pub fn check_times(ts: &TimeWeights) -> (r: bool)
    ensures
        r == times_wf(ts@),
{
    let mut i: usize = 0;
    while i < ts.len()
        invariant
            0 <= i <= ts@.len(),
            times_wf(ts@.take(i as int)),
        decreases ts@.len() - i,
    {
        if ts[i].1 == 0 {
            assert(!times_wf(ts@)) by {
                assert(ts@[i as int].1 == 0);
            }
            return false;
        }
        if i > 0 && ts[i - 1].0 >= ts[i].0 {
            assert(!times_wf(ts@)) by {
                assert(!(ts@[i - 1].0 < ts@[i as int].0));
            }
            return false;
        }
        proof {
            let p = ts@.take(i + 1);
            assert forall|a: int, b: int| 0 <= a < b < p.len() implies p[a].0 < p[b].0 by {
                if b == i {
                    if a < i - 1 {
                        assert(ts@.take(i as int)[a].0 < ts@.take(i as int)[i - 1].0);
                    }
                } else {
                    assert(ts@.take(i as int)[a].0 < ts@.take(i as int)[b].0);
                }
            }
            assert forall|a: int| 0 <= a < p.len() implies #[trigger] p[a].1 != 0 by {
                if a < i {
                    assert(ts@.take(i as int)[a].1 != 0);
                }
            }
        }
        i = i + 1;
    }
    assert(ts@.take(i as int) =~= ts@);
    true
}

/// Whether a value list is well formed.
pub fn check_list(l: &ValueList) -> (r: bool)
    ensures
        r == list_wf(list_view(l@)),
{
    let ghost lv = list_view(l@);
    let mut i: usize = 0;
    while i < l.len()
        invariant
            0 <= i <= l@.len(),
            lv == list_view(l@),
            list_wf(lv.take(i as int)),
        decreases l@.len() - i,
    {
        assert(lv[i as int] == entry_view(l@[i as int]));
        if l[i].1.len() == 0 || !check_times(&l[i].1) {
            assert(!list_wf(lv)) by {
                assert(!(lv[i as int].1.len() > 0 && times_wf(lv[i as int].1)));
            }
            return false;
        }
        if i > 0 {
            assert(lv[i - 1] == entry_view(l@[i - 1]));
            if compare_bytes(&l[i - 1].0, &l[i].0) >= 0 {
                assert(!list_wf(lv)) by {
                    assert(!bytes_lt(lv[i - 1].0, lv[i as int].0));
                }
                return false;
            }
        }
        proof {
            let p = lv.take(i + 1);
            let q = lv.take(i as int);
            assert forall|a: int, b: int| 0 <= a < b < p.len() implies bytes_lt(p[a].0, p[b].0) by {
                if b == i {
                    if a < i - 1 {
                        assert(bytes_lt(q[a].0, q[i - 1].0));
                        lemma_bytes_lt_transitive(q[a].0, q[i - 1].0, lv[i as int].0);
                    }
                } else {
                    assert(bytes_lt(q[a].0, q[b].0));
                }
            }
            assert forall|a: int| 0 <= a < p.len() implies #[trigger] p[a].1.len() > 0 && times_wf(p[a].1) by {
                if a < i {
                    assert(q[a] == p[a]);
                }
            }
        }
        i = i + 1;
    }
    assert(lv.take(i as int) =~= lv);
    true
}

/// Whether a persisted value is well formed.
pub fn check_pv(pv: &PersistedValue) -> (r: bool)
    ensures
        r == pv_wf(*pv),
{
    match pv {
        PersistedValue::Values(l) => l.len() > 0 && check_list(l),
        PersistedValue::Tombstone => true,
    }
}

/// Whether a merge operation is well formed.
pub fn check_op(op: &MergeOp) -> (r: bool)
    ensures
        r == op_wf(*op),
{
    match op {
        MergeOp::Insert(l) => check_list(l),
        MergeOp::RecedeTo(_) => true,
    }
}

} // verus!
