//! The trace: frontier bookkeeping, key and value bounds, and one keyspace
//! that holds every update inserted into it.

use vstd::prelude::*;
use crate::consumer::PersistentConsumer;
use crate::cursor::{groups_of, total_weight, GroupModel, PersistentTraceCursor};
use crate::merge::list_recede_weight;
use crate::codec::{enc_op, enc_u64, OpModel};
use crate::partition::{key_list, stored_weight, CapacityError, Partition, StoreConfig};
use crate::record::{
    bytes_lt, compare_bytes, copy_bytes, lemma_wadd_assoc, list_view, list_weight, list_wf,
    times_of, tw_weight, wadd, MergeOp, ValueList,
};

verus! {

/// An update: key, value, time and weight.
pub type Update = (u64, Vec<u8>, u64, i64);

/// Model of an update.
pub type UpdateModel = (u64, Seq<u8>, u64, i64);

/// A batch of updates covering the times from its lower frontier up to its
/// upper frontier.
#[derive(Clone, Debug, PartialEq, Eq)]
pub struct Batch {
    pub lower: Vec<u64>,
    pub upper: Vec<u64>,
    pub updates: Vec<Update>,
}

pub open spec fn update_view(u: Update) -> UpdateModel {
    (u.0, u.1@, u.2, u.3)
}

pub open spec fn updates_view(us: Seq<Update>) -> Seq<UpdateModel> {
    us.map_values(|u: Update| update_view(u))
}

/// The wrapped sum of the weights that `us` gives key `k`, value `v`, time `t`.
pub open spec fn update_weight(us: Seq<UpdateModel>, k: u64, v: Seq<u8>, t: u64) -> i64
    decreases us.len(),
{
    if us.len() == 0 {
        0
    } else if us.last().0 == k && us.last().1 == v && us.last().2 == t {
        wadd(update_weight(us.drop_last(), k, v, t), us.last().3)
    } else {
        update_weight(us.drop_last(), k, v, t)
    }
}

/// Whether the store takes the write of update `u`: it writes nothing for
/// a zero weight, and otherwise a one-entry insert under the update's key.
pub open spec fn update_fits(config: StoreConfig, u: UpdateModel) -> bool {
    u.3 == 0 || (enc_u64(u.0).len() <= config.max_key_size && enc_op(
        OpModel::Insert(seq![(u.1, seq![(u.2, u.3)])]),
    ).len() <= config.max_value_size)
}

/// The write that update `u` makes: a one-entry insert under its key.
pub open spec fn update_write(u: UpdateModel) -> (u64, OpModel) {
    (u.0, OpModel::Insert(seq![(u.1, seq![(u.2, u.3)])]))
}

/// The writes that updates `us` make, in order: one per update with a
/// non-zero weight.
pub open spec fn batch_writes(us: Seq<UpdateModel>) -> Seq<(u64, OpModel)>
    decreases us.len(),
{
    if us.len() == 0 {
        Seq::empty()
    } else if us.last().3 != 0 {
        batch_writes(us.drop_last()).push(update_write(us.last()))
    } else {
        batch_writes(us.drop_last())
    }
}

/// Whether some update of `us` with a non-zero weight is for key `k` and
/// value `v`.
pub open spec fn pair_written(us: Seq<UpdateModel>, k: u64, v: Seq<u8>) -> bool {
    exists|j: int| 0 <= j < us.len() && (#[trigger] us[j]).3 != 0 && us[j].0 == k && us[j].1 == v
}

/// The number of distinct (key, value) pairs that updates `us` write.
pub open spec fn pairs_written(us: Seq<UpdateModel>) -> nat
    decreases us.len(),
{
    if us.len() == 0 {
        0
    } else if us.last().3 != 0 && !pair_written(us.drop_last(), us.last().0, us.last().1) {
        pairs_written(us.drop_last()) + 1
    } else {
        pairs_written(us.drop_last())
    }
}

/// `n` capped at the largest `usize`.
pub open spec fn saturate(n: int) -> int {
    if n > usize::MAX {
        usize::MAX as int
    } else {
        n
    }
}

/// The keys a cursor over records `r` shows, in order: those at or above
/// the bound whose record holds a value.
pub open spec fn shown_keys(r: Seq<(u64, crate::record::PersistedValue)>, bound: Option<u64>) -> Seq<u64>
    decreases r.len(),
{
    if r.len() == 0 {
        Seq::empty()
    } else if crate::cursor::above_bound(r.last().0, bound) && crate::record::pv_list(r.last().1).len() > 0 {
        shown_keys(r.drop_last(), bound).push(r.last().0)
    } else {
        shown_keys(r.drop_last(), bound)
    }
}

/// The keys among the first `n` of `keys` whose positions `picks` holds,
/// in order, each once.
pub open spec fn picked_keys(keys: Seq<u64>, picks: Seq<usize>, n: nat) -> Seq<u64>
    decreases n,
{
    if n == 0 || n > keys.len() {
        Seq::empty()
    } else if picks.contains((n - 1) as usize) {
        picked_keys(keys, picks, (n - 1) as nat).push(keys[n - 1])
    } else {
        picked_keys(keys, picks, (n - 1) as nat)
    }
}

/// The least element of a non-empty sequence of times.
pub open spec fn min_of(s: Seq<u64>) -> u64
    decreases s.len(),
{
    if s.len() <= 1 {
        if s.len() == 1 {
            s[0]
        } else {
            0
        }
    } else if min_of(s.drop_last()) <= s.last() {
        min_of(s.drop_last())
    } else {
        s.last()
    }
}

/// The meet of two frontiers of a totally ordered time: the least of all
/// their times, or the empty frontier when both are empty.
pub open spec fn frontier_meet(a: Seq<u64>, b: Seq<u64>) -> Seq<u64> {
    if a.len() + b.len() == 0 {
        Seq::empty()
    } else {
        seq![min_of(a + b)]
    }
}

/// The join of two frontiers of a totally ordered time: the later of their
/// least times, or the empty frontier (nothing ever again) when either is
/// empty.
pub open spec fn frontier_join(a: Seq<u64>, b: Seq<u64>) -> Seq<u64> {
    if a.len() == 0 || b.len() == 0 {
        Seq::empty()
    } else if min_of(a) >= min_of(b) {
        seq![min_of(a)]
    } else {
        seq![min_of(b)]
    }
}

/// What consolidation makes of groups: for each, in order, its key and
/// value with the sum of its weights at the least time, unless that sum is
/// zero.
pub open spec fn consolidated(g: Seq<GroupModel>) -> Seq<UpdateModel>
    decreases g.len(),
{
    if g.len() == 0 {
        Seq::empty()
    } else if total_weight(g.last().2) != 0 {
        consolidated(g.drop_last()).push((g.last().0, g.last().1, 0u64, total_weight(g.last().2)))
    } else {
        consolidated(g.drop_last())
    }
}

/// Whether an update before position `i` with a non-zero weight is for
/// the key and value of update `i`.
fn pair_written_before(batch: &Batch, i: usize) -> (r: bool)
    requires
        i < batch.updates@.len(),
    ensures
        r == pair_written(
            updates_view(batch.updates@).take(i as int),
            batch.updates@[i as int].0,
            batch.updates@[i as int].1@,
        ),
{
    let ghost us = updates_view(batch.updates@);
    let ghost pre = us.take(i as int);
    let key = batch.updates[i].0;
    let mut j: usize = 0;
    while j < i
        invariant
            0 <= j <= i < batch.updates@.len(),
            us == updates_view(batch.updates@),
            pre == us.take(i as int),
            key == batch.updates@[i as int].0,
            forall|m: int|
                0 <= m < j ==> !((#[trigger] pre[m]).3 != 0 && pre[m].0 == key && pre[m].1
                    == batch.updates@[i as int].1@),
        decreases i - j,
    {
        assert(pre[j as int] == update_view(batch.updates@[j as int]));
        if batch.updates[j].3 != 0 && batch.updates[j].0 == key && compare_bytes(
            &batch.updates[j].1,
            &batch.updates[i].1,
        ) == 0 {
            assert(pre[j as int].3 != 0 && pre[j as int].0 == key);
            return true;
        }
        j = j + 1;
    }
    false
}

/// The least element of a vector of times, if any.
fn min_time(v: &Vec<u64>) -> (r: Option<u64>)
    ensures
        v@.len() == 0 ==> r is None,
        v@.len() > 0 ==> r == Some(min_of(v@)),
{
    if v.len() == 0 {
        return None;
    }
    let mut m: u64 = v[0];
    let mut i: usize = 1;
    while i < v.len()
        invariant
            1 <= i <= v@.len(),
            m == min_of(v@.take(i as int)),
        decreases v@.len() - i,
    {
        proof {
            assert(v@.take(i + 1).drop_last() =~= v@.take(i as int));
        }
        if v[i] < m {
            m = v[i];
        }
        i = i + 1;
    }
    proof {
        assert(v@.take(i as int) =~= v@);
    }
    Some(m)
}

proof fn lemma_min_of_concat(a: Seq<u64>, b: Seq<u64>)
    requires
        a.len() > 0,
        b.len() > 0,
    ensures
        min_of(a + b) == if min_of(a) <= min_of(b) {
            min_of(a)
        } else {
            min_of(b)
        },
    decreases b.len(),
{
    if b.len() == 1 {
        assert((a + b).drop_last() =~= a);
    } else {
        lemma_min_of_concat(a, b.drop_last());
        assert((a + b).drop_last() =~= a + b.drop_last());
    }
}

proof fn lemma_min_of_empty_left(b: Seq<u64>)
    ensures
        Seq::<u64>::empty() + b == b,
{
    assert(Seq::<u64>::empty() + b =~= b);
}

/// The meet of two frontiers.
fn meet(a: &Vec<u64>, b: &Vec<u64>) -> (r: Vec<u64>)
    ensures
        r@ == frontier_meet(a@, b@),
{
    let ma = min_time(a);
    let mb = min_time(b);
    proof {
        if a@.len() > 0 && b@.len() > 0 {
            lemma_min_of_concat(a@, b@);
        } else if a@.len() == 0 {
            lemma_min_of_empty_left(b@);
        } else {
            assert(a@ + b@ =~= a@);
        }
    }
    match (ma, mb) {
        (Some(x), Some(y)) => {
            if x <= y {
                vec![x]
            } else {
                vec![y]
            }
        },
        (Some(x), None) => vec![x],
        (None, Some(y)) => vec![y],
        (None, None) => Vec::new(),
    }
}

/// The join of two frontiers.
fn join(a: &Vec<u64>, b: &Vec<u64>) -> (r: Vec<u64>)
    ensures
        r@ == frontier_join(a@, b@),
{
    let ma = min_time(a);
    let mb = min_time(b);
    match (ma, mb) {
        (Some(x), Some(y)) => {
            if x >= y {
                vec![x]
            } else {
                vec![y]
            }
        },
        _ => Vec::new(),
    }
}

/// A copy of a vector of times.
fn copy_frontier(v: &Vec<u64>) -> (r: Vec<u64>)
    ensures
        r@ == v@,
{
    let mut out: Vec<u64> = Vec::with_capacity(v.len());
    let mut i: usize = 0;
    while i < v.len()
        invariant
            0 <= i <= v@.len(),
            out@ == v@.take(i as int),
        decreases v@.len() - i,
    {
        out.push(v[i]);
        i = i + 1;
        assert(out@ =~= v@.take(i as int));
    }
    assert(v@.take(i as int) =~= v@);
    out
}

/// A trace whose updates live in a keyspace of an ordered key-value store,
/// combined there by the merge policy.
pub struct PersistentTrace {
    lower: Vec<u64>,
    upper: Vec<u64>,
    dirty: bool,
    approximate_len: usize,
    lower_key_bound: Option<u64>,
    lower_val_bound: Option<Vec<u8>>,
    partition: Partition,
}

impl Default for PersistentTrace {
    fn default() -> (r: Self)
        ensures
            r.wf(),
            r.spec_lower() == seq![0u64],
            r.spec_upper() == Seq::<u64>::empty(),
            !r.spec_dirty(),
            r.spec_len() == 0,
            r.spec_key_bound() is None,
            r.spec_val_bound() is None,
            r.spec_records() == Seq::<(u64, crate::record::PersistedValue)>::empty(),
    {
        PersistentTrace::new()
    }
}

impl PersistentTrace {
    pub closed spec fn spec_lower(&self) -> Seq<u64> {
        self.lower@
    }

    pub closed spec fn spec_upper(&self) -> Seq<u64> {
        self.upper@
    }

    pub closed spec fn spec_dirty(&self) -> bool {
        self.dirty
    }

    pub closed spec fn spec_len(&self) -> nat {
        self.approximate_len as nat
    }

    pub closed spec fn spec_key_bound(&self) -> Option<u64> {
        self.lower_key_bound
    }

    pub closed spec fn spec_val_bound(&self) -> Option<Seq<u8>> {
        match self.lower_val_bound {
            Some(v) => Some(v@),
            None => None,
        }
    }

    /// The records of the trace's keyspace.
    pub closed spec fn spec_records(&self) -> Seq<(u64, crate::record::PersistedValue)> {
        self.partition.spec_records()
    }

    /// The keyspace's records are well formed: keys strictly increasing,
    /// each record a tombstone or a non-empty sorted value list without zero
    /// weights.
    pub open spec fn wf(&self) -> bool {
        crate::partition::records_wf(self.spec_records())
    }

    /// Every merge operation written to the trace's keyspace, with its key,
    /// in order.
    pub closed spec fn spec_writes(&self) -> Seq<(u64, OpModel)> {
        self.partition.spec_log()
    }

    /// The capacities of the store that holds the trace's keyspace.
    pub closed spec fn spec_config(&self) -> StoreConfig {
        self.partition.spec_config()
    }

    /// The weight the trace holds for key `k`, value `v`, time `t`.
    pub open spec fn weight_at(&self, k: u64, v: Seq<u8>, t: u64) -> i64 {
        stored_weight(self.spec_records(), k, v, t)
    }

    /// An empty trace in a store with the default capacities.
    pub fn new() -> (r: Self)
        ensures
            r.wf(),
            r.spec_lower() == seq![0u64],
            r.spec_upper() == Seq::<u64>::empty(),
            !r.spec_dirty(),
            r.spec_len() == 0,
            r.spec_key_bound() is None,
            r.spec_val_bound() is None,
            r.spec_records() == Seq::<(u64, crate::record::PersistedValue)>::empty(),
            r.spec_config().max_key_size == crate::partition::DB_KEY_SIZE,
            r.spec_config().max_value_size == crate::partition::DB_VALUE_SIZE,
    {
        Self::with_config(StoreConfig::standard())
    }

    /// An empty trace in a fresh keyspace of a store with the given
    /// capacities: lower frontier at the least time, upper frontier empty,
    /// no bounds, not dirty.
    pub fn with_config(config: StoreConfig) -> (r: Self)
        ensures
            r.wf(),
            r.spec_lower() == seq![0u64],
            r.spec_upper() == Seq::<u64>::empty(),
            !r.spec_dirty(),
            r.spec_len() == 0,
            r.spec_key_bound() is None,
            r.spec_val_bound() is None,
            r.spec_records() == Seq::<(u64, crate::record::PersistedValue)>::empty(),
            r.spec_config() == config,
    {
        let mut lower: Vec<u64> = Vec::new();
        lower.push(0);
        proof {
            assert(lower@ =~= seq![0u64]);
        }
        PersistentTrace {
            lower,
            upper: Vec::new(),
            dirty: false,
            approximate_len: 0,
            lower_key_bound: None,
            lower_val_bound: None,
            partition: Partition::new(config),
        }
    }

    /// Inserts a non-trivial batch (its lower and upper frontiers differ).
    /// An empty batch changes nothing. Otherwise the trace becomes dirty,
    /// its lower frontier the meet and its upper frontier the join of its
    /// own and the batch's, and the updates are written to the keyspace in
    /// order (`add_batch_to_cf`), so that each key, value and time then
    /// holds the sum of its old weight and the batch's weights for it, and
    /// the length estimate grows by the number of (key, value) pairs
    /// written. When the store refuses a write as too
    /// large, writing stops there with that error: the updates before it
    /// are written, the refused one and those after it are not.
    pub fn insert(&mut self, batch: Batch) -> (r: Result<(), CapacityError>)
        requires
            old(self).wf(),
            batch.lower@ != batch.upper@,
        ensures
            final(self).wf(),
            final(self).spec_key_bound() == old(self).spec_key_bound(),
            final(self).spec_val_bound() == old(self).spec_val_bound(),
            final(self).spec_config() == old(self).spec_config(),
            batch.updates@.len() == 0 ==> {
                &&& r is Ok
                &&& final(self).spec_lower() == old(self).spec_lower()
                &&& final(self).spec_upper() == old(self).spec_upper()
                &&& final(self).spec_dirty() == old(self).spec_dirty()
                &&& final(self).spec_len() == old(self).spec_len()
                &&& final(self).spec_records() == old(self).spec_records()
            },
            batch.updates@.len() > 0 ==> {
                &&& final(self).spec_dirty()
                &&& final(self).spec_lower() == frontier_meet(old(self).spec_lower(), batch.lower@)
                &&& final(self).spec_upper() == frontier_join(old(self).spec_upper(), batch.upper@)
            },
            (r is Ok) == forall|i: int|
                0 <= i < batch.updates@.len() ==> update_fits(
                    old(self).spec_config(),
                    #[trigger] updates_view(batch.updates@)[i],
                ),
            r is Ok ==> final(self).spec_len() == saturate(
                old(self).spec_len() as int + pairs_written(updates_view(batch.updates@)),
            ),
            r is Ok ==> final(self).spec_writes() == old(self).spec_writes() + batch_writes(
                updates_view(batch.updates@),
            ),
            r is Ok ==> forall|k: u64, v: Seq<u8>, t: u64|
                #[trigger] final(self).weight_at(k, v, t) == wadd(
                    old(self).weight_at(k, v, t),
                    update_weight(updates_view(batch.updates@), k, v, t),
                ),
            r is Err ==> exists|n: int|
                {
                    &&& 0 <= n < batch.updates@.len()
                    &&& !update_fits(old(self).spec_config(), updates_view(batch.updates@)[n])
                    &&& final(self).spec_len() == saturate(
                        old(self).spec_len() as int + pairs_written(updates_view(batch.updates@).take(n)),
                    )
                    &&& final(self).spec_writes() == old(self).spec_writes() + batch_writes(
                        updates_view(batch.updates@).take(n),
                    )
                    &&& forall|k: u64, v: Seq<u8>, t: u64|
                        #[trigger] final(self).weight_at(k, v, t) == wadd(
                            old(self).weight_at(k, v, t),
                            update_weight(updates_view(batch.updates@).take(n), k, v, t),
                        )
                },
    {
        let ghost us = updates_view(batch.updates@);
        if batch.updates.len() == 0 {
            proof {
                assert forall|k: u64, v: Seq<u8>, t: u64| #[trigger] self.weight_at(k, v, t) == wadd(
                    self.weight_at(k, v, t),
                    update_weight(us, k, v, t),
                ) by {}
                assert(batch_writes(us) =~= Seq::<(u64, OpModel)>::empty());
                assert(self.spec_writes() + Seq::<(u64, OpModel)>::empty() =~= self.spec_writes());
            }
            return Ok(());
        }
        self.dirty = true;
        self.lower = meet(&self.lower, &batch.lower);
        self.upper = join(&self.upper, &batch.upper);
        self.add_batch_to_cf(&batch)
    }

    /// Writes each update of `batch` with a non-zero weight to the keyspace,
    /// in order, as a one-entry insert under its key (`update_write`), so
    /// that each key, value and time then holds the sum of its old weight
    /// and the batch's weights for it; the length estimate grows by one for
    /// each (key, value) pair written. Stops at the first write the store
    /// refuses, with its error.
    fn add_batch_to_cf(&mut self, batch: &Batch) -> (r: Result<(), CapacityError>)
        requires
            old(self).wf(),
        ensures
            final(self).wf(),
            final(self).lower@ == old(self).lower@,
            final(self).upper@ == old(self).upper@,
            final(self).dirty == old(self).dirty,
            final(self).lower_key_bound == old(self).lower_key_bound,
            final(self).lower_val_bound == old(self).lower_val_bound,
            final(self).spec_config() == old(self).spec_config(),
            (r is Ok) == forall|i: int|
                0 <= i < batch.updates@.len() ==> update_fits(
                    old(self).spec_config(),
                    #[trigger] updates_view(batch.updates@)[i],
                ),
            r is Ok ==> final(self).spec_writes() == old(self).spec_writes() + batch_writes(
                updates_view(batch.updates@),
            ),
            r is Ok ==> final(self).spec_len() == saturate(
                old(self).spec_len() as int + pairs_written(updates_view(batch.updates@)),
            ),
            r is Ok ==> forall|k: u64, v: Seq<u8>, t: u64|
                #[trigger] stored_weight(final(self).partition.spec_records(), k, v, t) == wadd(
                    stored_weight(old(self).partition.spec_records(), k, v, t),
                    update_weight(updates_view(batch.updates@), k, v, t),
                ),
            r is Err ==> exists|n: int|
                {
                    &&& 0 <= n < batch.updates@.len()
                    &&& !update_fits(old(self).spec_config(), updates_view(batch.updates@)[n])
                    &&& final(self).spec_writes() == old(self).spec_writes() + batch_writes(
                        updates_view(batch.updates@).take(n),
                    )
                    &&& final(self).spec_len() == saturate(
                        old(self).spec_len() as int + pairs_written(updates_view(batch.updates@).take(n)),
                    )
                    &&& forall|k: u64, v: Seq<u8>, t: u64|
                        #[trigger] stored_weight(final(self).partition.spec_records(), k, v, t) == wadd(
                            stored_weight(old(self).partition.spec_records(), k, v, t),
                            update_weight(updates_view(batch.updates@).take(n), k, v, t),
                        )
                },
    {
        let ghost us = updates_view(batch.updates@);
        let ghost r0 = self.partition.spec_records();
        let ghost lo = self.lower;
        let ghost up = self.upper;
        let ghost ln = self.approximate_len;
        let ghost dt = self.dirty;
        let ghost kb = self.lower_key_bound;
        let ghost vb = self.lower_val_bound;
        let ghost cfg = self.partition.spec_config();
        let ghost log0 = self.partition.spec_log();
        let mut i: usize = 0;
        while i < batch.updates.len()
            invariant
                0 <= i <= batch.updates@.len(),
                self.partition.spec_config() == cfg,
                forall|j: int| 0 <= j < i ==> update_fits(cfg, #[trigger] us[j]),
                self.lower@ == lo@,
                self.upper@ == up@,
                self.partition.spec_log() == log0 + batch_writes(us.take(i as int)),
                log0 == old(self).partition.spec_log(),
                self.approximate_len == saturate(ln as int + pairs_written(us.take(i as int))),
                lo == old(self).lower,
                up == old(self).upper,
                ln == old(self).approximate_len,
                dt == old(self).dirty,
                kb == old(self).lower_key_bound,
                vb == old(self).lower_val_bound,
                r0 == old(self).partition.spec_records(),
                cfg == old(self).spec_config(),
                self.dirty == dt,
                self.lower_key_bound == kb,
                self.lower_val_bound == vb,
                us == updates_view(batch.updates@),
                self.partition.wf(),
                forall|k: u64, v: Seq<u8>, t: u64|
                    #[trigger] stored_weight(self.partition.spec_records(), k, v, t) == wadd(
                        stored_weight(r0, k, v, t),
                        update_weight(us.take(i as int), k, v, t),
                    ),
            decreases batch.updates@.len() - i,
        {
            let ghost cur = self.partition.spec_records();
            let key = batch.updates[i].0;
            let t = batch.updates[i].2;
            let w = batch.updates[i].3;
            let ghost v = batch.updates@[i as int].1@;
            proof {
                assert(us[i as int] == (key, v, t, w));
                assert(us.take(i + 1).drop_last() =~= us.take(i as int));
                assert(us.take(i + 1).last() == (key, v, t, w));
            }
            if w != 0 {
                let mut tws: Vec<(u64, i64)> = Vec::new();
                tws.push((t, w));
                let mut list: ValueList = Vec::new();
                list.push((copy_bytes(&batch.updates[i].1), tws));
                let ghost lv = list_view(list@);
                proof {
                    assert(lv =~= seq![(v, seq![(t, w)])]);
                    assert(lv.drop_last() =~= Seq::<(Seq<u8>, Seq<(u64, i64)>)>::empty());
                    assert(seq![(t, w)].drop_last() =~= Seq::<(u64, i64)>::empty());
                    assert(list_wf(lv));
                }
                let op = MergeOp::Insert(list);
                proof {
                    assert(crate::codec::op_model(op) == OpModel::Insert(seq![(v, seq![(t, w)])]));
                }
                let written = self.partition.write(key, &op);
                match written {
                    Ok(()) => {},
                    Err(e) => {
                        proof {
                            assert(!update_fits(cfg, us[i as int]));
                        }
                        return Err(e);
                    },
                }
                proof {
                    let bw = batch_writes(us.take(i as int));
                    assert(update_write(us[i as int]) == (key, OpModel::Insert(seq![(v, seq![(t, w)])])));
                    assert(batch_writes(us.take(i + 1)) == bw.push(update_write(us[i as int])));
                    assert((log0 + bw).push(update_write(us[i as int])) =~= log0 + bw.push(update_write(us[i as int])));
                }
                let seen = pair_written_before(batch, i);
                if !seen {
                    self.approximate_len = self.approximate_len.saturating_add(1);
                }
                proof {
                    let nxt = self.partition.spec_records();
                    assert forall|k: u64, v2: Seq<u8>, t2: u64| #[trigger] stored_weight(nxt, k, v2, t2) == wadd(
                        stored_weight(r0, k, v2, t2),
                        update_weight(us.take(i + 1), k, v2, t2),
                    ) by {
                        let before = stored_weight(cur, k, v2, t2);
                        assert(before == wadd(stored_weight(r0, k, v2, t2), update_weight(us.take(i as int), k, v2, t2)));
                        let single: i64 = if k == key && v2 == v && t2 == t {
                            w
                        } else {
                            0
                        };
                        if k == key {
                            assert(list_weight(key_list(nxt, k), v2, t2) == wadd(
                                list_weight(key_list(cur, k), v2, t2),
                                list_weight(lv, v2, t2),
                            ));
                            if v2 == v {
                                assert(times_of(lv, v2) == seq![(t, w)]);
                            } else {
                                assert(times_of(lv, v2) == times_of(lv.drop_last(), v2));
                                assert(times_of(lv, v2) =~= Seq::<(u64, i64)>::empty());
                            }
                            assert(tw_weight(Seq::<(u64, i64)>::empty(), t2) == 0);
                            assert(tw_weight(seq![(t, w)], t2) == if t2 == t {
                                w
                            } else {
                                tw_weight(Seq::<(u64, i64)>::empty(), t2)
                            });
                            assert(list_weight(lv, v2, t2) == single);
                        } else {
                            assert(key_list(nxt, k) == key_list(cur, k));
                        }
                        assert(stored_weight(nxt, k, v2, t2) == wadd(before, single));
                        lemma_wadd_assoc(stored_weight(r0, k, v2, t2), update_weight(us.take(i as int), k, v2, t2), single);
                    }
                }
            } else {
                proof {
                    assert forall|k: u64, v2: Seq<u8>, t2: u64| #[trigger] stored_weight(cur, k, v2, t2) == wadd(
                        stored_weight(r0, k, v2, t2),
                        update_weight(us.take(i + 1), k, v2, t2),
                    ) by {
                        assert(stored_weight(cur, k, v2, t2) == wadd(
                            stored_weight(r0, k, v2, t2),
                            update_weight(us.take(i as int), k, v2, t2),
                        ));
                    }
                }
            }
            i = i + 1;
        }
        proof {
            assert(us.take(i as int) =~= us);
        }
        Ok(())
    }
}

impl PersistentTrace {
    /// A cursor over the trace, positioned on its first group; it shows no
    /// key below the lower key bound.
    pub fn cursor(&self) -> (r: PersistentTraceCursor)
        requires
            self.wf(),
        ensures
            r.wf(),
            r.spec_groups() == groups_of(self.spec_records(), self.spec_key_bound()),
            r.spec_pos() == 0,
            r.spec_val_valid() == (r.spec_groups().len() > 0),
            forall|i: int|
                0 <= i < r.spec_groups().len() ==> crate::cursor::above_bound(
                    #[trigger] r.spec_groups()[i].0,
                    self.spec_key_bound(),
                ),
    {
        PersistentTraceCursor::new(&self.partition, self.lower_key_bound)
    }

    /// Consumes the trace key by key: the consumer hands out the groups the
    /// cursor would show, in the same order.
    pub fn consumer(self) -> (r: PersistentConsumer)
        requires
            self.wf(),
        ensures
            r.wf(),
            r.spec_groups() == groups_of(self.spec_records(), self.spec_key_bound()),
            r.spec_pos() == 0,
    {
        let cursor = self.cursor();
        let groups = cursor.into_groups();
        PersistentConsumer::new(groups)
    }

    /// Appends to `sample` the shown keys at the positions `picks` holds
    /// (drawn at random by the caller among `0..` the number of shown
    /// keys), in key order and each once; positions past the last key are
    /// ignored.
    pub fn sample_keys(&self, picks: &Vec<usize>, sample: &mut Vec<u64>)
        requires
            self.wf(),
        ensures
            final(sample)@ == old(sample)@ + picked_keys(
                shown_keys(self.spec_records(), self.spec_key_bound()),
                picks@,
                shown_keys(self.spec_records(), self.spec_key_bound()).len(),
            ),
    {
        let ghost bound = self.spec_key_bound();
        let records = self.partition.records();
        let ghost rs = records@;
        let mut keys: Vec<u64> = Vec::new();
        let mut i: usize = 0;
        while i < records.len()
            invariant
                0 <= i <= records@.len(),
                rs == records@,
                bound == self.lower_key_bound,
                keys@ == shown_keys(rs.take(i as int), bound),
            decreases records@.len() - i,
        {
            proof {
                assert(rs.take(i + 1).drop_last() =~= rs.take(i as int));
                assert(rs.take(i + 1).last() == rs[i as int]);
            }
            let key = records[i].0;
            let above = match self.lower_key_bound {
                Some(b) => key >= b,
                None => true,
            };
            let live = match &records[i].1 {
                crate::record::PersistedValue::Values(l) => l.len() > 0,
                crate::record::PersistedValue::Tombstone => false,
            };
            proof {
                assert(live == (crate::record::pv_list(rs[i as int].1).len() > 0));
            }
            if above && live {
                keys.push(key);
            }
            i = i + 1;
        }
        proof {
            assert(rs.take(i as int) =~= rs);
        }
        let ghost old_sample = sample@;
        let mut n: usize = 0;
        while n < keys.len()
            invariant
                0 <= n <= keys@.len(),
                sample@ == old_sample + picked_keys(keys@, picks@, n as nat),
            decreases keys@.len() - n,
        {
            let mut found = false;
            let mut j: usize = 0;
            while j < picks.len()
                invariant
                    0 <= j <= picks@.len(),
                    found == exists|m: int| 0 <= m < j && picks@[m] == n,
                decreases picks@.len() - j,
            {
                if picks[j] == n {
                    found = true;
                }
                j = j + 1;
            }
            proof {
                assert(found == picks@.contains(n));
            }
            if found {
                sample.push(keys[n]);
                proof {
                    assert(old_sample + picked_keys(keys@, picks@, n as nat).push(keys@[n as int]) =~= (old_sample
                        + picked_keys(keys@, picks@, n as nat)).push(keys@[n as int]));
                }
            }
            n = n + 1;
        }
        proof {
            assert(keys@.len() == shown_keys(rs, bound).len());
        }
    }

    /// Sums every value's weights over all times: one update per key and
    /// value that the cursor shows, in key and value order, at the least
    /// time, leaving out those whose weights cancel.
    pub fn consolidate(self) -> (r: Option<Batch>)
        requires
            self.wf(),
        ensures
            r is Some,
            updates_view(r->0.updates@) == consolidated(groups_of(self.spec_records(), self.spec_key_bound())),
            r->0.lower@ == seq![0u64],
            r->0.upper@ == self.spec_upper(),
    {
        let mut cursor = self.cursor();
        let ghost g = cursor.spec_groups();
        let mut out: Vec<Update> = Vec::new();
        while cursor.val_valid() || cursor.key_valid()
            invariant
                cursor.wf(),
                cursor.spec_groups() == g,
                cursor.spec_val_valid() ==> updates_view(out@) == consolidated(g.take(cursor.spec_pos())),
                !cursor.spec_val_valid() && cursor.spec_pos() < g.len() ==> updates_view(out@) == consolidated(
                    g.take(cursor.spec_pos() + 1),
                ) && crate::cursor::is_key_end(g, cursor.spec_pos()),
                cursor.spec_pos() == g.len() ==> updates_view(out@) == consolidated(g),
            decreases 2 * (g.len() - cursor.spec_pos()) + if cursor.spec_val_valid() {
                1int
            } else {
                0int
            },
        {
            if cursor.val_valid() {
                let ghost p = cursor.spec_pos();
                let total = cursor.total_weight();
                proof {
                    assert(g.take(p + 1).drop_last() =~= g.take(p));
                    assert(g.take(p + 1).last() == g[p]);
                }
                if total != 0 {
                    let k = cursor.key();
                    let v = copy_bytes(cursor.val());
                    proof {
                        assert(updates_view(out@.push((k, v, 0u64, total))) =~= updates_view(out@).push(
                            (k, v@, 0u64, total),
                        ));
                    }
                    out.push((k, v, 0, total));
                }
                cursor.step_val();
                proof {
                    if !cursor.spec_val_valid() {
                        assert(g.take(p + 1) == g.take(cursor.spec_pos() + 1));
                    }
                }
            } else {
                let ghost p = cursor.spec_pos();
                cursor.step_key();
                proof {
                    assert(cursor.spec_pos() == p + 1);
                    if cursor.spec_pos() == g.len() {
                        assert(g.take(p + 1) =~= g);
                    }
                }
            }
        }
        let upper = copy_frontier(&self.upper);
        let mut lower: Vec<u64> = Vec::new();
        lower.push(0);
        proof {
            assert(lower@ =~= seq![0u64]);
        }
        Some(Batch { lower, upper, updates: out })
    }

    /// Sends `RecedeTo(frontier)` to every key: each stored time after
    /// `frontier` collapses onto it, weights meeting there summed.
    pub fn recede_to(&mut self, frontier: u64)
        requires
            old(self).wf(),
        ensures
            final(self).wf(),
            final(self).spec_lower() == old(self).spec_lower(),
            final(self).spec_upper() == old(self).spec_upper(),
            final(self).spec_dirty() == old(self).spec_dirty(),
            final(self).spec_len() == old(self).spec_len(),
            final(self).spec_key_bound() == old(self).spec_key_bound(),
            final(self).spec_val_bound() == old(self).spec_val_bound(),
            forall|k: u64, v: Seq<u8>, t: u64|
                #[trigger] final(self).weight_at(k, v, t) == list_recede_weight(
                    key_list(old(self).spec_records(), k),
                    frontier,
                    v,
                    t,
                ),
    {
        self.partition.recede_all(frontier);
    }

    /// Does nothing: the store decides when to merge and compact.
    pub fn exert(&mut self, effort: &mut isize)
        ensures
            *final(self) == *old(self),
            *final(effort) == *old(effort),
    {
    }

    /// Raises the lower key bound to `bound`, never lowering it.
    pub fn truncate_keys_below(&mut self, bound: u64)
        ensures
            final(self).spec_key_bound() == Some(
                match old(self).spec_key_bound() {
                    Some(b) => if b > bound {
                        b
                    } else {
                        bound
                    },
                    None => bound,
                },
            ),
            final(self).spec_val_bound() == old(self).spec_val_bound(),
            final(self).spec_records() == old(self).spec_records(),
            final(self).spec_lower() == old(self).spec_lower(),
            final(self).spec_upper() == old(self).spec_upper(),
            final(self).spec_dirty() == old(self).spec_dirty(),
            final(self).spec_len() == old(self).spec_len(),
            final(self).wf() == old(self).wf(),
    {
        let next = match self.lower_key_bound {
            Some(b) => if b > bound {
                b
            } else {
                bound
            },
            None => bound,
        };
        self.lower_key_bound = Some(next);
    }

    /// Raises the lower value bound to `bound`, never lowering it.
    pub fn truncate_values_below(&mut self, bound: &Vec<u8>)
        ensures
            final(self).spec_val_bound() == Some(
                match old(self).spec_val_bound() {
                    Some(b) => if bytes_lt(bound@, b) {
                        b
                    } else {
                        bound@
                    },
                    None => bound@,
                },
            ),
            final(self).spec_key_bound() == old(self).spec_key_bound(),
            final(self).spec_records() == old(self).spec_records(),
            final(self).spec_lower() == old(self).spec_lower(),
            final(self).spec_upper() == old(self).spec_upper(),
            final(self).spec_dirty() == old(self).spec_dirty(),
            final(self).spec_len() == old(self).spec_len(),
            final(self).wf() == old(self).wf(),
    {
        let next = match &self.lower_val_bound {
            Some(b) => if compare_bytes(bound, b) < 0 {
                copy_bytes(b)
            } else {
                copy_bytes(bound)
            },
            None => copy_bytes(bound),
        };
        self.lower_val_bound = Some(next);
    }

    /// The lower value bound.
    pub fn lower_value_bound(&self) -> (r: &Option<Vec<u8>>)
        ensures
            match *r {
                Some(v) => self.spec_val_bound() == Some(v@),
                None => self.spec_val_bound() is None,
            },
    {
        &self.lower_val_bound
    }

    /// The lower key bound.
    pub fn lower_key_bound(&self) -> (r: Option<u64>)
        ensures
            r == self.spec_key_bound(),
    {
        self.lower_key_bound
    }

    pub fn dirty(&self) -> (r: bool)
        ensures
            r == self.spec_dirty(),
    {
        self.dirty
    }

    pub fn clear_dirty_flag(&mut self)
        ensures
            !final(self).spec_dirty(),
            final(self).spec_lower() == old(self).spec_lower(),
            final(self).spec_upper() == old(self).spec_upper(),
            final(self).spec_len() == old(self).spec_len(),
            final(self).spec_key_bound() == old(self).spec_key_bound(),
            final(self).spec_val_bound() == old(self).spec_val_bound(),
            final(self).spec_records() == old(self).spec_records(),
            final(self).wf() == old(self).wf(),
    {
        self.dirty = false;
    }

    /// The estimate of the number of updates: how many were inserted.
    pub fn len(&self) -> (r: usize)
        ensures
            r == self.spec_len(),
    {
        self.approximate_len
    }

    /// The estimate of the number of keys: how many records the keyspace
    /// holds, cancelled ones included until compaction removes them.
    pub fn key_count(&self) -> (r: usize)
        ensures
            r == self.spec_records().len(),
    {
        self.partition.records().len()
    }

    /// The number of entries, as for any trace: its key count.
    pub fn num_entries_shallow(&self) -> (r: usize)
        ensures
            r == self.spec_records().len(),
    {
        self.key_count()
    }

    /// The number of entries counted deeply: the same as the shallow count.
    pub fn num_entries_deep(&self) -> (r: usize)
        ensures
            r == self.spec_records().len(),
    {
        self.num_entries_shallow()
    }

    /// The lower frontier.
    pub fn lower(&self) -> (r: &Vec<u64>)
        ensures
            r@ == self.spec_lower(),
    {
        &self.lower
    }

    /// The upper frontier.
    pub fn upper(&self) -> (r: &Vec<u64>)
        ensures
            r@ == self.spec_upper(),
    {
        &self.upper
    }
}

} // verus!
