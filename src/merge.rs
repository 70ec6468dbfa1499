//! Combining records: folding inserted updates into a value list, and
//! collapsing times onto a frontier.

use vstd::prelude::*;
use crate::record::{
    bytes_lt, compare_bytes, copy_bytes, copy_times, lemma_list_wf_push, EntryModel, entry_view, lemma_bytes_lt_irreflexive, lemma_bytes_lt_transitive,
    list_view, list_weight, list_wf, op_wf, pv_list, pv_wf, times_of, times_wf, tw_weight, wadd,
    ListModel, MergeOp, PersistedValue, TimeWeights, TimesModel, ValueList,
};

verus! {

/// The sum of the weights recorded at times at or after `f`.
pub open spec fn sum_from(tws: TimesModel, f: u64) -> i64
    decreases tws.len(),
{
    if tws.len() == 0 {
        0
    } else if tws.last().0 >= f {
        wadd(sum_from(tws.drop_last(), f), tws.last().1)
    } else {
        sum_from(tws.drop_last(), f)
    }
}

/// The weight at time `t` once every time after `f` is collapsed onto `f`.
pub open spec fn recede_weight(tws: TimesModel, f: u64, t: u64) -> i64 {
    if t < f {
        tw_weight(tws, t)
    } else if t == f {
        sum_from(tws, f)
    } else {
        0
    }
}

pub proof fn lemma_tw_weight_push(s: TimesModel, x: (u64, i64), t: u64)
    ensures
        tw_weight(s.push(x), t) == if x.0 == t {
            x.1
        } else {
            tw_weight(s, t)
        },
{
    assert(s.push(x).drop_last() =~= s);
}

pub proof fn lemma_tw_weight_absent(s: TimesModel, t: u64)
    requires
        forall|k: int| 0 <= k < s.len() ==> #[trigger] s[k].0 != t,
    ensures
        tw_weight(s, t) == 0,
    decreases s.len(),
{
    if s.len() > 0 {
        lemma_tw_weight_absent(s.drop_last(), t);
    }
}

pub proof fn lemma_times_of_push(l: ListModel, x: (Seq<u8>, TimesModel), v: Seq<u8>)
    ensures
        times_of(l.push(x), v) == if x.0 == v {
            x.1
        } else {
            times_of(l, v)
        },
{
    assert(l.push(x).drop_last() =~= l);
}

pub proof fn lemma_times_of_absent(l: ListModel, v: Seq<u8>)
    requires
        forall|k: int| 0 <= k < l.len() ==> #[trigger] l[k].0 != v,
    ensures
        times_of(l, v) == Seq::<(u64, i64)>::empty(),
    decreases l.len(),
{
    if l.len() > 0 {
        lemma_times_of_absent(l.drop_last(), v);
    }
}

proof fn lemma_sum_from_push(s: TimesModel, x: (u64, i64), f: u64)
    ensures
        sum_from(s.push(x), f) == if x.0 >= f {
            wadd(sum_from(s, f), x.1)
        } else {
            sum_from(s, f)
        },
{
    assert(s.push(x).drop_last() =~= s);
}

/// Adds two well-formed `(time, weight)` lists time by time, dropping the
/// times whose weights cancel.
pub fn merge_times(a: &TimeWeights, b: &TimeWeights) -> (r: TimeWeights)
    requires
        times_wf(a@),
        times_wf(b@),
    ensures
        times_wf(r@),
        forall|t: u64| #[trigger] tw_weight(r@, t) == wadd(tw_weight(a@, t), tw_weight(b@, t)),
{
    let mut out: TimeWeights = Vec::new();
    let mut i: usize = 0;
    let mut j: usize = 0;
    while i < a.len() || j < b.len()
        invariant
            0 <= i <= a@.len(),
            0 <= j <= b@.len(),
            times_wf(a@),
            times_wf(b@),
            times_wf(out@),
            forall|t: u64|
                #[trigger] tw_weight(out@, t) == wadd(
                    tw_weight(a@.take(i as int), t),
                    tw_weight(b@.take(j as int), t),
                ),
            out@.len() > 0 && i < a@.len() ==> out@.last().0 < a@[i as int].0,
            out@.len() > 0 && j < b@.len() ==> out@.last().0 < b@[j as int].0,
            forall|k: int| 0 <= k < i && j < b@.len() ==> #[trigger] a@[k].0 < b@[j as int].0,
            forall|k: int| 0 <= k < j && i < a@.len() ==> #[trigger] b@[k].0 < a@[i as int].0,
        decreases a@.len() - i + b@.len() - j,
    {
        let ghost old_out = out@;
        let ghost ai = a@.take(i as int);
        let ghost bj = b@.take(j as int);
        if j >= b.len() || (i < a.len() && a[i].0 < b[j].0) {
            let x = a[i];
            proof {
                assert(a@.take(i + 1) =~= ai.push(x));
                assert forall|t: u64| #[trigger] tw_weight(out@.push(x), t) == wadd(
                    tw_weight(a@.take(i + 1), t),
                    tw_weight(bj, t),
                ) by {
                    lemma_tw_weight_push(out@, x, t);
                    lemma_tw_weight_push(ai, x, t);
                    if t == x.0 {
                        assert forall|k: int| 0 <= k < bj.len() implies #[trigger] bj[k].0 != t by {
                            assert(bj[k] == b@[k]);
                        }
                        lemma_tw_weight_absent(bj, t);
                        assert forall|k: int| 0 <= k < ai.len() implies #[trigger] ai[k].0 != t by {
                            assert(ai[k] == a@[k]);
                        }
                        lemma_tw_weight_absent(ai, t);
                    }
                }
            }
            out.push(x);
            i = i + 1;
        } else if i >= a.len() || b[j].0 < a[i].0 {
            let x = b[j];
            proof {
                assert(b@.take(j + 1) =~= bj.push(x));
                assert forall|t: u64| #[trigger] tw_weight(out@.push(x), t) == wadd(
                    tw_weight(ai, t),
                    tw_weight(b@.take(j + 1), t),
                ) by {
                    lemma_tw_weight_push(out@, x, t);
                    lemma_tw_weight_push(bj, x, t);
                    if t == x.0 {
                        assert forall|k: int| 0 <= k < ai.len() implies #[trigger] ai[k].0 != t by {
                            assert(ai[k] == a@[k]);
                        }
                        lemma_tw_weight_absent(ai, t);
                        assert forall|k: int| 0 <= k < bj.len() implies #[trigger] bj[k].0 != t by {
                            assert(bj[k] == b@[k]);
                        }
                        lemma_tw_weight_absent(bj, t);
                    }
                }
            }
            out.push(x);
            j = j + 1;
        } else {
            let t0 = a[i].0;
            let w = a[i].1.wrapping_add(b[j].1);
            let ghost xa = a@[i as int];
            let ghost xb = b@[j as int];
            proof {
                assert(a@.take(i + 1) =~= ai.push(xa));
                assert(b@.take(j + 1) =~= bj.push(xb));
                assert forall|t: u64| t != t0 implies #[trigger] tw_weight(out@, t) == wadd(
                    tw_weight(a@.take(i + 1), t),
                    tw_weight(b@.take(j + 1), t),
                ) by {
                    lemma_tw_weight_push(ai, xa, t);
                    lemma_tw_weight_push(bj, xb, t);
                }
                assert forall|k: int| 0 <= k < ai.len() implies #[trigger] ai[k].0 != t0 by {
                    assert(ai[k] == a@[k]);
                }
                lemma_tw_weight_absent(ai, t0);
                assert forall|k: int| 0 <= k < bj.len() implies #[trigger] bj[k].0 != t0 by {
                    assert(bj[k] == b@[k]);
                }
                lemma_tw_weight_absent(bj, t0);
                lemma_tw_weight_push(ai, xa, t0);
                lemma_tw_weight_push(bj, xb, t0);
            }
            if w != 0 {
                proof {
                    assert forall|t: u64| #[trigger] tw_weight(out@.push((t0, w)), t) == wadd(
                        tw_weight(a@.take(i + 1), t),
                        tw_weight(b@.take(j + 1), t),
                    ) by {
                        lemma_tw_weight_push(out@, (t0, w), t);
                    }
                }
                out.push((t0, w));
            } else {
                proof {
                    assert(tw_weight(out@, t0) == 0);
                }
            }
            i = i + 1;
            j = j + 1;
        }
    }
    proof {
        assert(a@.take(i as int) =~= a@);
        assert(b@.take(j as int) =~= b@);
    }
    out
}

/// A value below another is distinct from it.
proof fn lemma_lt_ne(a: Seq<u8>, b: Seq<u8>)
    requires
        bytes_lt(a, b),
    ensures
        a != b,
{
    lemma_bytes_lt_irreflexive(a);
}

/// Every value of a well-formed list lies below a bound above its last value.
proof fn lemma_below_last(l: ListModel, bound: Seq<u8>)
    requires
        list_wf(l),
        l.len() > 0 ==> bytes_lt(l.last().0, bound),
    ensures
        forall|k: int| 0 <= k < l.len() ==> bytes_lt(#[trigger] l[k].0, bound),
{
    assert forall|k: int| 0 <= k < l.len() implies bytes_lt(#[trigger] l[k].0, bound) by {
        if k < l.len() - 1 {
            lemma_bytes_lt_transitive(l[k].0, l.last().0, bound);
        }
    }
}

/// Adds two well-formed value lists value by value and time by time,
/// dropping the pairs whose weights cancel and the values left with none.
pub fn merge_values(a: &ValueList, b: &ValueList) -> (r: ValueList)
    requires
        list_wf(list_view(a@)),
        list_wf(list_view(b@)),
    ensures
        list_wf(list_view(r@)),
        forall|v: Seq<u8>, t: u64|
            #[trigger] list_weight(list_view(r@), v, t) == wadd(
                list_weight(list_view(a@), v, t),
                list_weight(list_view(b@), v, t),
            ),
{
    let ghost la = list_view(a@);
    let ghost lb = list_view(b@);
    let mut out: ValueList = Vec::new();
    let mut i: usize = 0;
    let mut j: usize = 0;
    while i < a.len() || j < b.len()
        invariant
            0 <= i <= a@.len(),
            0 <= j <= b@.len(),
            la == list_view(a@),
            lb == list_view(b@),
            list_wf(la),
            list_wf(lb),
            list_wf(list_view(out@)),
            forall|v: Seq<u8>, t: u64|
                #[trigger] list_weight(list_view(out@), v, t) == wadd(
                    list_weight(la.take(i as int), v, t),
                    list_weight(lb.take(j as int), v, t),
                ),
            out@.len() > 0 && i < a@.len() ==> bytes_lt(list_view(out@).last().0, la[i as int].0),
            out@.len() > 0 && j < b@.len() ==> bytes_lt(list_view(out@).last().0, lb[j as int].0),
            forall|k: int| 0 <= k < i && j < b@.len() ==> bytes_lt(#[trigger] la[k].0, lb[j as int].0),
            forall|k: int| 0 <= k < j && i < a@.len() ==> bytes_lt(#[trigger] lb[k].0, la[i as int].0),
        decreases a@.len() - i + b@.len() - j,
    {
        let ghost outv = list_view(out@);
        let ghost lai = la.take(i as int);
        let ghost lbj = lb.take(j as int);
        let c: i8 = if i < a.len() && j < b.len() {
            compare_bytes(&a[i].0, &b[j].0)
        } else {
            0
        };
        if j >= b.len() || (i < a.len() && c < 0) {
            let x = (copy_bytes(&a[i].0), copy_times(&a[i].1));
            let ghost e = la[i as int];
            proof {
                assert(entry_view(x) == e);
                assert(la.take(i + 1) =~= lai.push(e));
                assert(list_view(out@.push(x)) =~= outv.push(e));
                assert forall|k: int| 0 <= k < lbj.len() implies #[trigger] lbj[k].0 != e.0 by {
                    assert(lbj[k] == lb[k]);
                    lemma_lt_ne(lb[k].0, e.0);
                }
                lemma_times_of_absent(lbj, e.0);
                assert forall|k: int| 0 <= k < lai.len() implies #[trigger] lai[k].0 != e.0 by {
                    assert(lai[k] == la[k]);
                    lemma_lt_ne(la[k].0, e.0);
                }
                lemma_times_of_absent(lai, e.0);
                assert forall|v: Seq<u8>, t: u64| #[trigger] list_weight(outv.push(e), v, t) == wadd(
                    list_weight(la.take(i + 1), v, t),
                    list_weight(lbj, v, t),
                ) by {
                    lemma_times_of_push(outv, e, v);
                    lemma_times_of_push(lai, e, v);
                    if v == e.0 {
                        assert(tw_weight(Seq::<(u64, i64)>::empty(), t) == 0);
                    } else {
                        assert(list_weight(outv, v, t) == wadd(list_weight(lai, v, t), list_weight(lbj, v, t)));
                    }
                }
                lemma_list_wf_push(outv, e);
                if i + 1 < a@.len() {
                    assert forall|k: int| 0 <= k < j implies bytes_lt(#[trigger] lb[k].0, la[i + 1].0) by {
                        lemma_bytes_lt_transitive(lb[k].0, la[i as int].0, la[i + 1].0);
                    }
                }
            }
            out.push(x);
            i = i + 1;
        } else if i >= a.len() || c > 0 {
            let x = (copy_bytes(&b[j].0), copy_times(&b[j].1));
            let ghost e = lb[j as int];
            proof {
                assert(entry_view(x) == e);
                assert(lb.take(j + 1) =~= lbj.push(e));
                assert(list_view(out@.push(x)) =~= outv.push(e));
                assert forall|k: int| 0 <= k < lai.len() implies #[trigger] lai[k].0 != e.0 by {
                    assert(lai[k] == la[k]);
                    lemma_lt_ne(la[k].0, e.0);
                }
                lemma_times_of_absent(lai, e.0);
                assert forall|k: int| 0 <= k < lbj.len() implies #[trigger] lbj[k].0 != e.0 by {
                    assert(lbj[k] == lb[k]);
                    lemma_lt_ne(lb[k].0, e.0);
                }
                lemma_times_of_absent(lbj, e.0);
                assert forall|v: Seq<u8>, t: u64| #[trigger] list_weight(outv.push(e), v, t) == wadd(
                    list_weight(lai, v, t),
                    list_weight(lb.take(j + 1), v, t),
                ) by {
                    lemma_times_of_push(outv, e, v);
                    lemma_times_of_push(lbj, e, v);
                    if v == e.0 {
                        assert(tw_weight(Seq::<(u64, i64)>::empty(), t) == 0);
                    } else {
                        assert(list_weight(outv, v, t) == wadd(list_weight(lai, v, t), list_weight(lbj, v, t)));
                    }
                }
                lemma_list_wf_push(outv, e);
                if j + 1 < b@.len() {
                    assert forall|k: int| 0 <= k < i implies bytes_lt(#[trigger] la[k].0, lb[j + 1].0) by {
                        lemma_bytes_lt_transitive(la[k].0, lb[j as int].0, lb[j + 1].0);
                    }
                }
            }
            out.push(x);
            j = j + 1;
        } else {
            proof {
                assert(la[i as int] == entry_view(a@[i as int]));
                assert(lb[j as int] == entry_view(b@[j as int]));
                assert(la[i as int].1.len() > 0 && times_wf(la[i as int].1));
                assert(lb[j as int].1.len() > 0 && times_wf(lb[j as int].1));
            }
            let merged = merge_times(&a[i].1, &b[j].1);
            let ghost ea = la[i as int];
            let ghost eb = lb[j as int];
            proof {
                assert(ea.0 == eb.0);
                assert(la.take(i + 1) =~= lai.push(ea));
                assert(lb.take(j + 1) =~= lbj.push(eb));
                assert forall|k: int| 0 <= k < lai.len() implies #[trigger] lai[k].0 != ea.0 by {
                    assert(lai[k] == la[k]);
                    lemma_lt_ne(la[k].0, ea.0);
                }
                lemma_times_of_absent(lai, ea.0);
                assert forall|k: int| 0 <= k < lbj.len() implies #[trigger] lbj[k].0 != ea.0 by {
                    assert(lbj[k] == lb[k]);
                    lemma_lt_ne(lb[k].0, ea.0);
                }
                lemma_times_of_absent(lbj, ea.0);
                lemma_below_last(outv, ea.0);
                assert forall|k: int| 0 <= k < outv.len() implies #[trigger] outv[k].0 != ea.0 by {
                    lemma_lt_ne(outv[k].0, ea.0);
                }
                lemma_times_of_absent(outv, ea.0);
                assert forall|v: Seq<u8>, t: u64| v != ea.0 implies #[trigger] list_weight(outv, v, t) == wadd(
                    list_weight(la.take(i + 1), v, t),
                    list_weight(lb.take(j + 1), v, t),
                ) by {
                    lemma_times_of_push(lai, ea, v);
                    lemma_times_of_push(lbj, eb, v);
                }
                lemma_times_of_push(lai, ea, ea.0);
                lemma_times_of_push(lbj, eb, ea.0);
                if i + 1 < a@.len() {
                    assert forall|k: int| 0 <= k < j + 1 implies bytes_lt(#[trigger] lb[k].0, la[i + 1].0) by {
                        if k < j {
                            lemma_bytes_lt_transitive(lb[k].0, la[i as int].0, la[i + 1].0);
                        }
                    }
                }
                if j + 1 < b@.len() {
                    assert forall|k: int| 0 <= k < i + 1 implies bytes_lt(#[trigger] la[k].0, lb[j + 1].0) by {
                        if k < i {
                            lemma_bytes_lt_transitive(la[k].0, lb[j as int].0, lb[j + 1].0);
                        }
                    }
                }
                if out@.len() > 0 && i + 1 < a@.len() {
                    lemma_bytes_lt_transitive(outv.last().0, ea.0, la[i + 1].0);
                }
                if out@.len() > 0 && j + 1 < b@.len() {
                    lemma_bytes_lt_transitive(outv.last().0, eb.0, lb[j + 1].0);
                }
            }
            if merged.len() > 0 {
                let x = (copy_bytes(&a[i].0), merged);
                proof {
                    let e = entry_view(x);
                    assert(list_view(out@.push(x)) =~= outv.push(e));
                    assert forall|v: Seq<u8>, t: u64| #[trigger] list_weight(outv.push(e), v, t) == wadd(
                        list_weight(la.take(i + 1), v, t),
                        list_weight(lb.take(j + 1), v, t),
                    ) by {
                        lemma_times_of_push(outv, e, v);
                        if v != ea.0 {
                            assert(list_weight(outv, v, t) == wadd(
                                list_weight(la.take(i + 1), v, t),
                                list_weight(lb.take(j + 1), v, t),
                            ));
                        }
                    }
                    lemma_list_wf_push(outv, e);
                }
                out.push(x);
            } else {
                proof {
                    assert forall|t: u64| #[trigger] list_weight(outv, ea.0, t) == wadd(
                        list_weight(la.take(i + 1), ea.0, t),
                        list_weight(lb.take(j + 1), ea.0, t),
                    ) by {
                        assert(tw_weight(merged@, t) == 0);
                    }
                }
            }
            i = i + 1;
            j = j + 1;
        }
    }
    proof {
        assert(la.take(i as int) =~= la);
        assert(lb.take(j as int) =~= lb);
    }
    out
}

/// Collapses every time after `f` onto `f` in a well-formed `(time, weight)`
/// list, summing the weights that meet there and dropping a zero sum.
pub fn recede_times(tws: &TimeWeights, f: u64) -> (r: TimeWeights)
    requires
        times_wf(tws@),
    ensures
        times_wf(r@),
        forall|t: u64| #[trigger] tw_weight(r@, t) == recede_weight(tws@, f, t),
{
    let mut out: TimeWeights = Vec::new();
    let mut acc: i64 = 0;
    let mut i: usize = 0;
    while i < tws.len()
        invariant
            0 <= i <= tws@.len(),
            times_wf(tws@),
            times_wf(out@),
            forall|k: int| 0 <= k < out@.len() ==> #[trigger] out@[k].0 < f,
            i < tws@.len() ==> forall|k: int| 0 <= k < out@.len() ==> #[trigger] out@[k].0 < tws@[i as int].0,
            forall|t: u64| t < f ==> #[trigger] tw_weight(out@, t) == tw_weight(tws@.take(i as int), t),
            forall|t: u64| t >= f ==> #[trigger] tw_weight(out@, t) == 0,
            acc == sum_from(tws@.take(i as int), f),
        decreases tws@.len() - i,
    {
        let x = tws[i];
        proof {
            assert(tws@.take(i + 1) =~= tws@.take(i as int).push(x));
            lemma_sum_from_push(tws@.take(i as int), x, f);
        }
        if x.0 < f {
            proof {
                assert forall|t: u64| t < f implies #[trigger] tw_weight(out@.push(x), t) == tw_weight(tws@.take(i + 1), t) by {
                    lemma_tw_weight_push(out@, x, t);
                    lemma_tw_weight_push(tws@.take(i as int), x, t);
                }
                assert forall|t: u64| t >= f implies #[trigger] tw_weight(out@.push(x), t) == 0 by {
                    lemma_tw_weight_push(out@, x, t);
                }
            }
            out.push(x);
        } else {
            proof {
                assert forall|t: u64| t < f implies #[trigger] tw_weight(out@, t) == tw_weight(tws@.take(i + 1), t) by {
                    lemma_tw_weight_push(tws@.take(i as int), x, t);
                }
            }
            acc = acc.wrapping_add(x.1);
        }
        i = i + 1;
    }
    proof {
        assert(tws@.take(i as int) =~= tws@);
    }
    if acc != 0 {
        proof {
            assert forall|t: u64| #[trigger] tw_weight(out@.push((f, acc)), t) == recede_weight(tws@, f, t) by {
                lemma_tw_weight_push(out@, (f, acc), t);
            }
        }
        out.push((f, acc));
    }
    out
}

/// The weight of value `v` at time `t` once every time after `f` is
/// collapsed onto `f`.
pub open spec fn list_recede_weight(l: ListModel, f: u64, v: Seq<u8>, t: u64) -> i64 {
    recede_weight(times_of(l, v), f, t)
}

/// Collapses every time after `f` onto `f` for each value of a well-formed
/// list, dropping the values left with no weight.
pub fn recede_values(l: &ValueList, f: u64) -> (r: ValueList)
    requires
        list_wf(list_view(l@)),
    ensures
        list_wf(list_view(r@)),
        forall|v: Seq<u8>, t: u64|
            #[trigger] list_weight(list_view(r@), v, t) == list_recede_weight(list_view(l@), f, v, t),
{
    let ghost ll = list_view(l@);
    let mut out: ValueList = Vec::new();
    let mut i: usize = 0;
    while i < l.len()
        invariant
            0 <= i <= l@.len(),
            ll == list_view(l@),
            list_wf(ll),
            list_wf(list_view(out@)),
            i < l@.len() ==> forall|k: int|
                0 <= k < out@.len() ==> bytes_lt(#[trigger] list_view(out@)[k].0, ll[i as int].0),
            forall|v: Seq<u8>, t: u64|
                #[trigger] list_weight(list_view(out@), v, t) == list_recede_weight(
                    ll.take(i as int),
                    f,
                    v,
                    t,
                ),
        decreases l@.len() - i,
    {
        let ghost outv = list_view(out@);
        let ghost li = ll.take(i as int);
        let ghost e = ll[i as int];
        proof {
            assert(e == entry_view(l@[i as int]));
            assert(e.1.len() > 0 && times_wf(e.1));
            assert(ll.take(i + 1) =~= li.push(e));
            assert forall|k: int| 0 <= k < li.len() implies #[trigger] li[k].0 != e.0 by {
                assert(li[k] == ll[k]);
                lemma_lt_ne(ll[k].0, e.0);
            }
            lemma_times_of_absent(li, e.0);
            assert forall|k: int| 0 <= k < outv.len() implies #[trigger] outv[k].0 != e.0 by {
                lemma_lt_ne(outv[k].0, e.0);
            }
            lemma_times_of_absent(outv, e.0);
            assert forall|v: Seq<u8>, t: u64| v != e.0 implies #[trigger] list_weight(outv, v, t)
                == list_recede_weight(ll.take(i + 1), f, v, t) by {
                lemma_times_of_push(li, e, v);
            }
            lemma_times_of_push(li, e, e.0);
            if i + 1 < l@.len() {
                assert forall|k: int| 0 <= k < outv.len() implies bytes_lt(#[trigger] outv[k].0, ll[i + 1].0) by {
                    lemma_bytes_lt_transitive(outv[k].0, e.0, ll[i + 1].0);
                }
            }
        }
        let receded = recede_times(&l[i].1, f);
        if receded.len() > 0 {
            let x = (copy_bytes(&l[i].0), receded);
            proof {
                let ex = entry_view(x);
                assert(list_view(out@.push(x)) =~= outv.push(ex));
                assert forall|v: Seq<u8>, t: u64| #[trigger] list_weight(outv.push(ex), v, t)
                    == list_recede_weight(ll.take(i + 1), f, v, t) by {
                    lemma_times_of_push(outv, ex, v);
                    if v != e.0 {
                        assert(list_weight(outv, v, t) == list_recede_weight(ll.take(i + 1), f, v, t));
                    }
                }
                if outv.len() > 0 {
                    assert(bytes_lt(outv[outv.len() - 1].0, e.0));
                }
                lemma_list_wf_push(outv, ex);
                if i + 1 < l@.len() {
                    assert forall|k: int| 0 <= k < outv.len() + 1 implies bytes_lt(
                        #[trigger] outv.push(ex)[k].0,
                        ll[i + 1].0,
                    ) by {
                        if k < outv.len() {
                            assert(outv.push(ex)[k] == outv[k]);
                        }
                    }
                }
            }
            out.push(x);
        } else {
            proof {
                assert forall|t: u64| #[trigger] list_weight(outv, e.0, t) == list_recede_weight(
                    ll.take(i + 1),
                    f,
                    e.0,
                    t,
                ) by {
                    assert(tw_weight(receded@, t) == 0);
                    assert(tw_weight(Seq::<(u64, i64)>::empty(), t) == 0);
                }
            }
        }
        i = i + 1;
    }
    proof {
        assert(ll.take(i as int) =~= ll);
    }
    out
}

/// The weight of value `v` at time `t` in the record that `op` makes of
/// the value list `l`.
pub open spec fn op_weight(l: ListModel, op: MergeOp, v: Seq<u8>, t: u64) -> i64 {
    match op {
        MergeOp::Insert(ins) => wadd(list_weight(l, v, t), list_weight(list_view(ins@), v, t)),
        MergeOp::RecedeTo(f) => list_recede_weight(l, f, v, t),
    }
}

/// Applies a merge operation to a persisted value. The result holds, for
/// each value and time, the weight that the operation asks for, and is a
/// tombstone when no weight is left.
pub fn apply_merge_op(pv: &PersistedValue, op: &MergeOp) -> (r: PersistedValue)
    requires
        pv_wf(*pv),
        op_wf(*op),
    ensures
        pv_wf(r),
        forall|v: Seq<u8>, t: u64|
            #[trigger] list_weight(pv_list(r), v, t) == op_weight(pv_list(*pv), *op, v, t),
{
    let empty: ValueList = Vec::new();
    let old_list: &ValueList = match pv {
        PersistedValue::Values(l) => l,
        PersistedValue::Tombstone => &empty,
    };
    proof {
        assert(list_view(old_list@) == pv_list(*pv)) by {
            if pv is Tombstone {
                assert(list_view(empty@) =~= Seq::<EntryModel>::empty());
            }
        }
    }
    let merged = match op {
        MergeOp::Insert(ins) => merge_values(old_list, ins),
        MergeOp::RecedeTo(f) => recede_values(old_list, *f),
    };
    if merged.len() > 0 {
        PersistedValue::Values(merged)
    } else {
        proof {
            assert(list_view(merged@) =~= Seq::<EntryModel>::empty());
        }
        PersistedValue::Tombstone
    }
}

} // verus!
