//! Laws of the merge policy: a well-formed record is determined by its
//! weights, inserted updates may be merged in any order and grouping, and
//! receding twice to one frontier is receding once.

use vstd::prelude::*;
use crate::codec::{enc_pv, pv_model, PvModel};
use crate::policy::{pvm_list, pvm_wf};
use crate::cursor::{above_bound, groups_of, lemma_groups_of_wf, record_groups};
use crate::partition::{records_wf, stored_weight};
use crate::merge::{lemma_times_of_absent, lemma_tw_weight_absent, list_recede_weight, recede_weight, sum_from};
use crate::record::{
    bytes_lt, lemma_bytes_lt_irreflexive, lemma_bytes_lt_total, lemma_bytes_lt_transitive,
    lemma_wadd_assoc, lemma_wadd_comm, list_weight, list_wf, pv_list, pv_wf, times_of, times_wf,
    tw_weight, wadd, ListModel, PersistedValue, TimesModel,
};

verus! {

proof fn lemma_times_wf_drop_last(s: TimesModel)
    requires
        times_wf(s),
        s.len() > 0,
    ensures
        times_wf(s.drop_last()),
        forall|i: int| 0 <= i < s.len() - 1 ==> #[trigger] s[i].0 < s.last().0,
{
    let d = s.drop_last();
    assert forall|i: int| 0 <= i < d.len() implies #[trigger] d[i].1 != 0 by {
        assert(d[i] == s[i]);
    }
    assert forall|i: int, j: int| 0 <= i < j < d.len() implies d[i].0 < d[j].0 by {
        assert(d[i] == s[i]);
        assert(d[j] == s[j]);
    }
}

proof fn lemma_list_wf_drop_last(l: ListModel)
    requires
        list_wf(l),
        l.len() > 0,
    ensures
        list_wf(l.drop_last()),
        forall|i: int| 0 <= i < l.len() - 1 ==> bytes_lt(#[trigger] l[i].0, l.last().0),
{
    let d = l.drop_last();
    assert forall|i: int| 0 <= i < d.len() implies #[trigger] d[i].1.len() > 0 && times_wf(d[i].1) by {
        assert(d[i] == l[i]);
    }
    assert forall|i: int, j: int| 0 <= i < j < d.len() implies bytes_lt(d[i].0, d[j].0) by {
        assert(d[i] == l[i]);
        assert(d[j] == l[j]);
    }
    assert forall|i: int| 0 <= i < l.len() - 1 implies bytes_lt(#[trigger] l[i].0, l.last().0) by {
        assert(bytes_lt(l[i].0, l[l.len() - 1].0));
    }
}

/// A time with a non-zero weight is one of the list's times.
proof fn lemma_tw_weight_present(s: TimesModel, t: u64)
    requires
        tw_weight(s, t) != 0,
    ensures
        exists|i: int| 0 <= i < s.len() && s[i].0 == t,
{
    if forall|i: int| 0 <= i < s.len() ==> #[trigger] s[i].0 != t {
        lemma_tw_weight_absent(s, t);
    }
}

/// A well-formed list records each of its weights at its time.
proof fn lemma_tw_weight_at(s: TimesModel, i: int)
    requires
        times_wf(s),
        0 <= i < s.len(),
    ensures
        tw_weight(s, s[i].0) == s[i].1,
    decreases s.len(),
{
    if i < s.len() - 1 {
        lemma_times_wf_drop_last(s);
        assert(s.drop_last()[i] == s[i]);
        lemma_tw_weight_at(s.drop_last(), i);
    }
}

/// Two well-formed `(time, weight)` lists with the same weights are equal.
pub proof fn lemma_times_canonical(a: TimesModel, b: TimesModel)
    requires
        times_wf(a),
        times_wf(b),
        forall|t: u64| #[trigger] tw_weight(a, t) == tw_weight(b, t),
    ensures
        a == b,
    decreases a.len() + b.len(),
{
    if a.len() == 0 && b.len() == 0 {
        assert(a =~= b);
    } else if a.len() == 0 {
        lemma_tw_weight_at(b, b.len() - 1);
        assert(tw_weight(b, b.last().0) != 0);
        assert(tw_weight(a, b.last().0) == 0);
    } else if b.len() == 0 {
        lemma_tw_weight_at(a, a.len() - 1);
        assert(tw_weight(a, a.last().0) != 0);
        assert(tw_weight(b, a.last().0) == 0);
    } else {
        let x = a.last();
        let y = b.last();
        lemma_times_wf_drop_last(a);
        lemma_times_wf_drop_last(b);
        lemma_tw_weight_at(a, a.len() - 1);
        lemma_tw_weight_at(b, b.len() - 1);
        lemma_tw_weight_present(b, x.0);
        lemma_tw_weight_present(a, y.0);
        let j = choose|j: int| 0 <= j < b.len() && b[j].0 == x.0;
        let i = choose|i: int| 0 <= i < a.len() && a[i].0 == y.0;
        assert(x.0 <= y.0) by {
            if j < b.len() - 1 {
                assert(b[j].0 < y.0);
            }
        }
        assert(y.0 <= x.0) by {
            if i < a.len() - 1 {
                assert(a[i].0 < x.0);
            }
        }
        assert(x == y);
        let da = a.drop_last();
        let db = b.drop_last();
        assert forall|t: u64| #[trigger] tw_weight(da, t) == tw_weight(db, t) by {
            if t == x.0 {
                assert forall|k: int| 0 <= k < da.len() implies #[trigger] da[k].0 != t by {
                    assert(da[k] == a[k]);
                }
                lemma_tw_weight_absent(da, t);
                assert forall|k: int| 0 <= k < db.len() implies #[trigger] db[k].0 != t by {
                    assert(db[k] == b[k]);
                }
                lemma_tw_weight_absent(db, t);
            } else {
                assert(tw_weight(a, t) == tw_weight(da, t));
                assert(tw_weight(b, t) == tw_weight(db, t));
            }
        }
        lemma_times_canonical(da, db);
        assert(a =~= da.push(x));
        assert(b =~= db.push(y));
    }
}

/// A value with a non-zero weight is one of the list's values.
proof fn lemma_list_weight_present(l: ListModel, v: Seq<u8>, t: u64)
    requires
        list_weight(l, v, t) != 0,
    ensures
        exists|i: int| 0 <= i < l.len() && l[i].0 == v,
{
    if forall|i: int| 0 <= i < l.len() ==> #[trigger] l[i].0 != v {
        lemma_times_of_absent(l, v);
    }
}

/// In a well-formed list, the last value's times carry a non-zero weight.
proof fn lemma_last_has_weight(l: ListModel)
    requires
        list_wf(l),
        l.len() > 0,
    ensures
        times_of(l, l.last().0) == l.last().1,
        list_weight(l, l.last().0, l.last().1[0].0) != 0,
{
    assert(l[l.len() - 1].1.len() > 0 && times_wf(l[l.len() - 1].1));
    lemma_tw_weight_at(l.last().1, 0);
}

/// Two well-formed value lists with the same weights are equal.
pub proof fn lemma_list_canonical(a: ListModel, b: ListModel)
    requires
        list_wf(a),
        list_wf(b),
        forall|v: Seq<u8>, t: u64| #[trigger] list_weight(a, v, t) == list_weight(b, v, t),
    ensures
        a == b,
    decreases a.len() + b.len(),
{
    if a.len() == 0 && b.len() == 0 {
        assert(a =~= b);
    } else if a.len() == 0 {
        lemma_last_has_weight(b);
        assert(list_weight(b, b.last().0, b.last().1[0].0) != 0);
        assert(list_weight(a, b.last().0, b.last().1[0].0) == 0);
    } else if b.len() == 0 {
        lemma_last_has_weight(a);
        assert(list_weight(a, a.last().0, a.last().1[0].0) != 0);
        assert(list_weight(b, a.last().0, a.last().1[0].0) == 0);
    } else {
        let x = a.last();
        let y = b.last();
        lemma_list_wf_drop_last(a);
        lemma_list_wf_drop_last(b);
        lemma_last_has_weight(a);
        lemma_last_has_weight(b);
        assert(list_weight(b, x.0, x.1[0].0) != 0);
        assert(list_weight(a, y.0, y.1[0].0) != 0);
        lemma_list_weight_present(b, x.0, x.1[0].0);
        lemma_list_weight_present(a, y.0, y.1[0].0);
        let j = choose|j: int| 0 <= j < b.len() && b[j].0 == x.0;
        let i = choose|i: int| 0 <= i < a.len() && a[i].0 == y.0;
        assert(x.0 == y.0) by {
            if x.0 != y.0 {
                lemma_bytes_lt_total(x.0, y.0);
                if bytes_lt(x.0, y.0) {
                    if i < a.len() - 1 {
                        assert(bytes_lt(a[i].0, x.0));
                        lemma_bytes_lt_transitive(y.0, x.0, y.0);
                    }
                    lemma_bytes_lt_irreflexive(y.0);
                } else {
                    if j < b.len() - 1 {
                        assert(bytes_lt(b[j].0, y.0));
                        lemma_bytes_lt_transitive(x.0, y.0, x.0);
                    }
                    lemma_bytes_lt_irreflexive(x.0);
                }
            }
        }
        assert forall|t: u64| #[trigger] tw_weight(x.1, t) == tw_weight(y.1, t) by {
            assert(list_weight(a, x.0, t) == list_weight(b, x.0, t));
        }
        assert(a[a.len() - 1].1.len() > 0 && times_wf(a[a.len() - 1].1));
        assert(b[b.len() - 1].1.len() > 0 && times_wf(b[b.len() - 1].1));
        lemma_times_canonical(x.1, y.1);
        let da = a.drop_last();
        let db = b.drop_last();
        assert forall|v: Seq<u8>, t: u64| #[trigger] list_weight(da, v, t) == list_weight(db, v, t) by {
            if v == x.0 {
                assert forall|k: int| 0 <= k < da.len() implies #[trigger] da[k].0 != v by {
                    assert(da[k] == a[k]);
                    lemma_bytes_lt_irreflexive(v);
                }
                lemma_times_of_absent(da, v);
                assert forall|k: int| 0 <= k < db.len() implies #[trigger] db[k].0 != v by {
                    assert(db[k] == b[k]);
                    lemma_bytes_lt_irreflexive(v);
                }
                lemma_times_of_absent(db, v);
            } else {
                assert(list_weight(a, v, t) == list_weight(da, v, t));
                assert(list_weight(b, v, t) == list_weight(db, v, t));
            }
        }
        lemma_list_canonical(da, db);
        assert(a =~= da.push(x));
        assert(b =~= db.push(y));
    }
}

/// A well-formed persisted value is determined by its weights: two with
/// the same weight for every value and time are the same record.
pub proof fn lemma_pv_canonical(p: PersistedValue, q: PersistedValue)
    requires
        pv_wf(p),
        pv_wf(q),
        forall|v: Seq<u8>, t: u64| #[trigger] list_weight(pv_list(p), v, t) == list_weight(pv_list(q), v, t),
    ensures
        pv_model(p) == pv_model(q),
{
    lemma_list_canonical(pv_list(p), pv_list(q));
    match p {
        PersistedValue::Values(l) => {
            assert(crate::record::list_view(l@).len() == l@.len());
        },
        PersistedValue::Tombstone => {},
    }
    match q {
        PersistedValue::Values(l) => {
            assert(crate::record::list_view(l@).len() == l@.len());
        },
        PersistedValue::Tombstone => {},
    }
}

/// The weight a record holds for a value and time.
pub open spec fn pv_weight(p: PersistedValue, v: Seq<u8>, t: u64) -> i64 {
    list_weight(pv_list(p), v, t)
}

/// Inserting `a` and then `b` into a record gives the record that inserting
/// `b` and then `a` gives: `pa` and `pab` are what merging the inserts in
/// the first order makes, `pb` and `pba` what the other order makes.
pub proof fn lemma_insert_order_free(
    p0: PersistedValue,
    a: ListModel,
    b: ListModel,
    pa: PersistedValue,
    pab: PersistedValue,
    pb: PersistedValue,
    pba: PersistedValue,
)
    requires
        pv_wf(p0),
        list_wf(a),
        list_wf(b),
        pv_wf(pa),
        pv_wf(pab),
        pv_wf(pb),
        pv_wf(pba),
        forall|v: Seq<u8>, t: u64| #[trigger] pv_weight(pa, v, t) == wadd(pv_weight(p0, v, t), list_weight(a, v, t)),
        forall|v: Seq<u8>, t: u64| #[trigger] pv_weight(pab, v, t) == wadd(pv_weight(pa, v, t), list_weight(b, v, t)),
        forall|v: Seq<u8>, t: u64| #[trigger] pv_weight(pb, v, t) == wadd(pv_weight(p0, v, t), list_weight(b, v, t)),
        forall|v: Seq<u8>, t: u64| #[trigger] pv_weight(pba, v, t) == wadd(pv_weight(pb, v, t), list_weight(a, v, t)),
    ensures
        pv_model(pab) == pv_model(pba),
{
    assert forall|v: Seq<u8>, t: u64| #[trigger] list_weight(pv_list(pab), v, t) == list_weight(pv_list(pba), v, t) by {
        let w0 = pv_weight(p0, v, t);
        let wa = list_weight(a, v, t);
        let wb = list_weight(b, v, t);
        assert(pv_weight(pa, v, t) == wadd(w0, wa));
        assert(pv_weight(pb, v, t) == wadd(w0, wb));
        assert(pv_weight(pab, v, t) == wadd(wadd(w0, wa), wb));
        assert(pv_weight(pba, v, t) == wadd(wadd(w0, wb), wa));
        lemma_wadd_assoc(w0, wa, wb);
        lemma_wadd_assoc(w0, wb, wa);
        lemma_wadd_comm(wa, wb);
    }
    lemma_pv_canonical(pab, pba);
}

/// Inserting `a` and then `b` gives the record that inserting at once a
/// list `c` holding the sums of their weights gives.
pub proof fn lemma_insert_grouping_free(
    p0: PersistedValue,
    a: ListModel,
    b: ListModel,
    c: ListModel,
    pa: PersistedValue,
    pab: PersistedValue,
    pc: PersistedValue,
)
    requires
        pv_wf(p0),
        list_wf(a),
        list_wf(b),
        list_wf(c),
        pv_wf(pa),
        pv_wf(pab),
        pv_wf(pc),
        forall|v: Seq<u8>, t: u64| #[trigger] list_weight(c, v, t) == wadd(list_weight(a, v, t), list_weight(b, v, t)),
        forall|v: Seq<u8>, t: u64| #[trigger] pv_weight(pa, v, t) == wadd(pv_weight(p0, v, t), list_weight(a, v, t)),
        forall|v: Seq<u8>, t: u64| #[trigger] pv_weight(pab, v, t) == wadd(pv_weight(pa, v, t), list_weight(b, v, t)),
        forall|v: Seq<u8>, t: u64| #[trigger] pv_weight(pc, v, t) == wadd(pv_weight(p0, v, t), list_weight(c, v, t)),
    ensures
        pv_model(pab) == pv_model(pc),
{
    assert forall|v: Seq<u8>, t: u64| #[trigger] list_weight(pv_list(pab), v, t) == list_weight(pv_list(pc), v, t) by {
        let w0 = pv_weight(p0, v, t);
        let wa = list_weight(a, v, t);
        let wb = list_weight(b, v, t);
        assert(pv_weight(pa, v, t) == wadd(w0, wa));
        assert(pv_weight(pab, v, t) == wadd(wadd(w0, wa), wb));
        assert(pv_weight(pc, v, t) == wadd(w0, wadd(wa, wb)));
        lemma_wadd_assoc(w0, wa, wb);
    }
    lemma_pv_canonical(pab, pc);
}

/// The wrapped sum of the weights that a sequence of inserted lists gives
/// value `v` at time `t`.
pub open spec fn inserted_weight(ops: Seq<ListModel>, v: Seq<u8>, t: u64) -> i64
    decreases ops.len(),
{
    if ops.len() == 0 {
        0
    } else {
        wadd(inserted_weight(ops.drop_last(), v, t), list_weight(ops.last(), v, t))
    }
}

/// Merging a sequence of inserts one at a time (`steps[i + 1]` is what
/// merging `ops[i]` into `steps[i]` makes) ends in the record that folding
/// all of them in a single pass gives: the record holding, for each value
/// and time, the first record's weight plus the sum of all inserted weights.
pub proof fn lemma_inserts_single_pass(ops: Seq<ListModel>, steps: Seq<PersistedValue>, single: PersistedValue)
    requires
        steps.len() == ops.len() + 1,
        forall|i: int| 0 <= i < steps.len() ==> pv_wf(#[trigger] steps[i]),
        forall|i: int| 0 <= i < ops.len() ==> list_wf(#[trigger] ops[i]),
        forall|i: int, v: Seq<u8>, t: u64|
            #![trigger list_weight(ops[i], v, t)]
            0 <= i < ops.len() ==> pv_weight(steps[i + 1], v, t) == wadd(
                pv_weight(steps[i], v, t),
                list_weight(ops[i], v, t),
            ),
        pv_wf(single),
        forall|v: Seq<u8>, t: u64|
            #[trigger] pv_weight(single, v, t) == wadd(pv_weight(steps[0], v, t), inserted_weight(ops, v, t)),
    ensures
        pv_model(steps.last()) == pv_model(single),
{
    assert forall|v: Seq<u8>, t: u64| #[trigger] list_weight(pv_list(steps.last()), v, t) == list_weight(
        pv_list(single),
        v,
        t,
    ) by {
        lemma_steps_weight(ops, steps, v, t, ops.len() as int);
        assert(ops.take(ops.len() as int) =~= ops);
        assert(steps.last() == steps[ops.len() as int]);
        assert(pv_weight(single, v, t) == wadd(pv_weight(steps[0], v, t), inserted_weight(ops, v, t)));
        assert(pv_weight(steps[ops.len() as int], v, t) == wadd(
            pv_weight(steps[0], v, t),
            inserted_weight(ops.take(ops.len() as int), v, t),
        ));
    }
    lemma_pv_canonical(steps.last(), single);
}

proof fn lemma_steps_weight(ops: Seq<ListModel>, steps: Seq<PersistedValue>, v: Seq<u8>, t: u64, n: int)
    requires
        steps.len() == ops.len() + 1,
        0 <= n <= ops.len(),
        forall|i: int, v: Seq<u8>, t: u64|
            #![trigger list_weight(ops[i], v, t)]
            0 <= i < ops.len() ==> pv_weight(steps[i + 1], v, t) == wadd(
                pv_weight(steps[i], v, t),
                list_weight(ops[i], v, t),
            ),
    ensures
        pv_weight(steps[n], v, t) == wadd(pv_weight(steps[0], v, t), inserted_weight(ops.take(n), v, t)),
    decreases n,
{
    if n == 0 {
        assert(inserted_weight(ops.take(0), v, t) == 0);
    } else {
        lemma_steps_weight(ops, steps, v, t, n - 1);
        assert(ops.take(n).drop_last() =~= ops.take(n - 1));
        assert(ops.take(n).last() == ops[n - 1]);
        assert(list_weight(ops[n - 1], v, t) == list_weight(ops[n - 1], v, t));
        assert(pv_weight(steps[n], v, t) == wadd(pv_weight(steps[n - 1], v, t), list_weight(ops[n - 1], v, t)));
        lemma_wadd_assoc(
            pv_weight(steps[0], v, t),
            inserted_weight(ops.take(n - 1), v, t),
            list_weight(ops[n - 1], v, t),
        );
    }
}

proof fn lemma_sum_from_below(s: TimesModel, f: u64)
    requires
        forall|i: int| 0 <= i < s.len() ==> #[trigger] s[i].0 < f,
    ensures
        sum_from(s, f) == 0,
    decreases s.len(),
{
    if s.len() > 0 {
        assert forall|i: int| 0 <= i < s.len() - 1 implies #[trigger] s.drop_last()[i].0 < f by {
            assert(s.drop_last()[i] == s[i]);
        }
        lemma_sum_from_below(s.drop_last(), f);
    }
}

proof fn lemma_sum_from_upto(s: TimesModel, f: u64)
    requires
        times_wf(s),
        forall|i: int| 0 <= i < s.len() ==> #[trigger] s[i].0 <= f,
    ensures
        sum_from(s, f) == tw_weight(s, f),
    decreases s.len(),
{
    if s.len() > 0 {
        lemma_times_wf_drop_last(s);
        let d = s.drop_last();
        assert(s[s.len() - 1].0 <= f);
        if s.last().0 == f {
            assert forall|i: int| 0 <= i < d.len() implies #[trigger] d[i].0 < f by {
                assert(d[i] == s[i]);
            }
            lemma_sum_from_below(d, f);
        } else {
            assert forall|i: int| 0 <= i < d.len() implies #[trigger] d[i].0 <= f by {
                assert(d[i] == s[i]);
            }
            lemma_sum_from_upto(d, f);
        }
    }
}

proof fn lemma_times_of_wf(l: ListModel, v: Seq<u8>)
    requires
        list_wf(l),
    ensures
        times_wf(times_of(l, v)),
    decreases l.len(),
{
    if l.len() > 0 {
        assert(l[l.len() - 1].1.len() > 0 && times_wf(l[l.len() - 1].1));
        if l.last().0 != v {
            lemma_list_wf_drop_last(l);
            lemma_times_of_wf(l.drop_last(), v);
        }
    }
}

/// Receding a record to frontier `f` twice gives the record that receding
/// it once gives: `once` is what merging `RecedeTo(f)` into `start` makes, and
/// `twice` what merging it into `once` makes.
pub proof fn lemma_recede_idempotent(start: PersistedValue, once: PersistedValue, twice: PersistedValue, f: u64)
    requires
        pv_wf(start),
        pv_wf(once),
        pv_wf(twice),
        forall|v: Seq<u8>, t: u64| #[trigger] pv_weight(once, v, t) == list_recede_weight(pv_list(start), f, v, t),
        forall|v: Seq<u8>, t: u64| #[trigger] pv_weight(twice, v, t) == list_recede_weight(pv_list(once), f, v, t),
    ensures
        pv_model(twice) == pv_model(once),
{
    let l1 = pv_list(once);
    assert(list_wf(l1)) by {
        if once is Tombstone {
            assert(l1 =~= Seq::<(Seq<u8>, TimesModel)>::empty());
        }
    }
    assert forall|v: Seq<u8>, t: u64| #[trigger] list_weight(pv_list(twice), v, t) == list_weight(l1, v, t) by {
        let s = times_of(l1, v);
        lemma_times_of_wf(l1, v);
        assert forall|i: int| 0 <= i < s.len() implies #[trigger] s[i].0 <= f by {
            lemma_tw_weight_at(s, i);
            if s[i].0 > f {
                assert(pv_weight(once, v, s[i].0) == list_recede_weight(pv_list(start), f, v, s[i].0));
                assert(recede_weight(times_of(pv_list(start), v), f, s[i].0) == 0);
            }
        }
        assert(pv_weight(twice, v, t) == recede_weight(s, f, t));
        if t == f {
            lemma_sum_from_upto(s, f);
        } else if t > f {
            assert forall|k: int| 0 <= k < s.len() implies #[trigger] s[k].0 != t by {}
            lemma_tw_weight_absent(s, t);
        }
    }
    lemma_pv_canonical(twice, once);
}

/// In a well-formed list each value's times are its entry's.
proof fn lemma_times_of_at(l: ListModel, a: int)
    requires
        list_wf(l),
        0 <= a < l.len(),
    ensures
        times_of(l, l[a].0) == l[a].1,
    decreases l.len(),
{
    if a < l.len() - 1 {
        lemma_list_wf_drop_last(l);
        assert(l.drop_last()[a] == l[a]);
        lemma_bytes_lt_irreflexive(l[a].0);
        lemma_times_of_at(l.drop_last(), a);
    }
}

/// What a cursor over well-formed records shows is exactly what they
/// store: each group's `(time, weight)` pairs carry the stored weights of
/// its key and value, and every key at or above the bound with a non-zero
/// weight for some value and time shows a group for that key and value.
pub proof fn lemma_groups_show_weights(r: Seq<(u64, PersistedValue)>, bound: Option<u64>)
    requires
        records_wf(r),
    ensures
        forall|i: int, t: u64|
            0 <= i < groups_of(r, bound).len() ==> #[trigger] tw_weight(groups_of(r, bound)[i].2, t)
                == stored_weight(r, groups_of(r, bound)[i].0, groups_of(r, bound)[i].1, t),
        forall|k: u64, v: Seq<u8>, t: u64|
            above_bound(k, bound) && #[trigger] stored_weight(r, k, v, t) != 0 ==> exists|i: int|
                0 <= i < groups_of(r, bound).len() && groups_of(r, bound)[i].0 == k && groups_of(
                    r,
                    bound,
                )[i].1 == v,
        forall|i: int|
            0 <= i < groups_of(r, bound).len() ==> stored_weight(
                r,
                #[trigger] groups_of(r, bound)[i].0,
                groups_of(r, bound)[i].1,
                groups_of(r, bound)[i].2[0].0,
            ) != 0,
    decreases r.len(),
{
    lemma_groups_show_weights_inner(r, bound);
    lemma_groups_of_wf(r, bound);
    let g = groups_of(r, bound);
    assert forall|i: int| 0 <= i < g.len() implies stored_weight(r, #[trigger] g[i].0, g[i].1, g[i].2[0].0) != 0 by {
        assert(g[i].2.len() > 0 && times_wf(g[i].2));
        lemma_tw_weight_at(g[i].2, 0);
        assert(tw_weight(g[i].2, g[i].2[0].0) == stored_weight(r, g[i].0, g[i].1, g[i].2[0].0));
    }
}

proof fn lemma_groups_show_weights_inner(r: Seq<(u64, PersistedValue)>, bound: Option<u64>)
    requires
        records_wf(r),
    ensures
        forall|i: int, t: u64|
            0 <= i < groups_of(r, bound).len() ==> #[trigger] tw_weight(groups_of(r, bound)[i].2, t)
                == stored_weight(r, groups_of(r, bound)[i].0, groups_of(r, bound)[i].1, t),
        forall|k: u64, v: Seq<u8>, t: u64|
            above_bound(k, bound) && #[trigger] stored_weight(r, k, v, t) != 0 ==> exists|i: int|
                0 <= i < groups_of(r, bound).len() && groups_of(r, bound)[i].0 == k && groups_of(
                    r,
                    bound,
                )[i].1 == v,
    decreases r.len(),
{
    if r.len() > 0 {
        let p = r.drop_last();
        assert(records_wf(p)) by {
            assert forall|i: int| 0 <= i < p.len() implies pv_wf(#[trigger] p[i].1) by {
                assert(p[i] == r[i]);
            }
        }
        lemma_groups_show_weights_inner(p, bound);
        lemma_groups_of_wf(p, bound);
        let gp = groups_of(p, bound);
        let kl = r.last().0;
        let l = pv_list(r.last().1);
        assert(pv_wf(r[r.len() - 1].1));
        assert(list_wf(l)) by {
            if r.last().1 is Tombstone {
                assert(l =~= Seq::<(Seq<u8>, TimesModel)>::empty());
            }
        }
        let tail = if above_bound(kl, bound) {
            record_groups(kl, l)
        } else {
            Seq::<(u64, Seq<u8>, TimesModel)>::empty()
        };
        let g = gp + tail;
        assert(g == groups_of(r, bound));
        assert forall|i: int| 0 <= i < gp.len() implies #[trigger] gp[i].0 < kl by {
            let j = choose|j: int| 0 <= j < p.len() && p[j].0 == gp[i].0;
            assert(p[j] == r[j]);
        }
        assert forall|i: int, t: u64| 0 <= i < g.len() implies #[trigger] tw_weight(g[i].2, t) == stored_weight(
            r,
            g[i].0,
            g[i].1,
            t,
        ) by {
            if i < gp.len() {
                assert(g[i] == gp[i]);
                assert(tw_weight(gp[i].2, t) == stored_weight(p, gp[i].0, gp[i].1, t));
            } else {
                let a = i - gp.len();
                assert(g[i] == tail[a]);
                assert(tail[a] == (kl, l[a].0, l[a].1));
                lemma_times_of_at(l, a);
            }
        }
        assert forall|k: u64, v: Seq<u8>, t: u64| above_bound(k, bound) && #[trigger] stored_weight(r, k, v, t)
            != 0 implies exists|i: int| 0 <= i < g.len() && g[i].0 == k && g[i].1 == v by {
            if k == kl {
                lemma_list_weight_present(l, v, t);
                let a = choose|a: int| 0 <= a < l.len() && l[a].0 == v;
                assert(g[gp.len() + a] == tail[a]);
            } else {
                assert(stored_weight(r, k, v, t) == stored_weight(p, k, v, t));
                let i = choose|i: int| 0 <= i < gp.len() && gp[i].0 == k && gp[i].1 == v;
                assert(g[i] == gp[i]);
            }
        }
    }
}

/// A well-formed decoded record is determined by its weights, so two with
/// the same weights have the same encoding: what `merge` writes depends on
/// the weights it is asked for alone, and the laws above on records carry
/// over to the bytes it returns.
pub proof fn lemma_pvm_canonical(m1: PvModel, m2: PvModel)
    requires
        pvm_wf(m1),
        pvm_wf(m2),
        forall|v: Seq<u8>, t: u64| #[trigger] list_weight(pvm_list(m1), v, t) == list_weight(pvm_list(m2), v, t),
    ensures
        m1 == m2,
        enc_pv(m1) == enc_pv(m2),
{
    assert(list_wf(pvm_list(m1))) by {
        if m1 is Tombstone {
            assert(pvm_list(m1) =~= Seq::<(Seq<u8>, TimesModel)>::empty());
        }
    }
    assert(list_wf(pvm_list(m2))) by {
        if m2 is Tombstone {
            assert(pvm_list(m2) =~= Seq::<(Seq<u8>, TimesModel)>::empty());
        }
    }
    lemma_list_canonical(pvm_list(m1), pvm_list(m2));
}

} // verus!
