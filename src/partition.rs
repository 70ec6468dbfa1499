//! One keyspace of an ordered key-value store: one record per key, kept in
//! key order, each combined with incoming merge operations by the merge
//! policy.

use vstd::prelude::*;
use crate::merge::{apply_merge_op, list_recede_weight, op_weight};
use crate::codec::{enc_op, enc_u64, encode_op, op_model, OpModel};
use crate::record::{list_weight, op_wf, pv_list, pv_wf, ListModel, MergeOp, PersistedValue};

verus! {

/// Keys strictly increasing and every record well formed.
pub open spec fn records_wf(r: Seq<(u64, PersistedValue)>) -> bool {
    &&& forall|i: int, j: int| 0 <= i < j < r.len() ==> r[i].0 < r[j].0
    &&& forall|i: int| 0 <= i < r.len() ==> pv_wf(#[trigger] r[i].1)
}

/// The value list stored under key `k`, empty when there is none.
pub open spec fn key_list(r: Seq<(u64, PersistedValue)>, k: u64) -> ListModel
    decreases r.len(),
{
    if r.len() == 0 {
        Seq::empty()
    } else if r.last().0 == k {
        pv_list(r.last().1)
    } else {
        key_list(r.drop_last(), k)
    }
}

/// The weight stored for key `k`, value `v`, time `t`.
pub open spec fn stored_weight(r: Seq<(u64, PersistedValue)>, k: u64, v: Seq<u8>, t: u64) -> i64 {
    list_weight(key_list(r, k), v, t)
}

pub proof fn lemma_key_list_at(r: Seq<(u64, PersistedValue)>, i: int)
    requires
        records_wf(r),
        0 <= i < r.len(),
    ensures
        key_list(r, r[i].0) == pv_list(r[i].1),
    decreases r.len(),
{
    if i < r.len() - 1 {
        assert(r.drop_last()[i] == r[i]);
        lemma_key_list_at(r.drop_last(), i);
    }
}

pub proof fn lemma_key_list_absent(r: Seq<(u64, PersistedValue)>, k: u64)
    requires
        forall|i: int| 0 <= i < r.len() ==> #[trigger] r[i].0 != k,
    ensures
        key_list(r, k) == Seq::<(Seq<u8>, Seq<(u64, i64)>)>::empty(),
    decreases r.len(),
{
    if r.len() > 0 {
        assert forall|i: int| 0 <= i < r.len() - 1 implies #[trigger] r.drop_last()[i].0 != k by {
            assert(r.drop_last()[i] == r[i]);
        }
        lemma_key_list_absent(r.drop_last(), k);
    }
}

/// Two well-formed record sequences with the same keys at the same places
/// agree on every key whose record they share.
proof fn lemma_key_list_same_keys(r1: Seq<(u64, PersistedValue)>, r2: Seq<(u64, PersistedValue)>, k: u64)
    requires
        records_wf(r1),
        records_wf(r2),
        r1.len() == r2.len(),
        forall|i: int| 0 <= i < r1.len() ==> #[trigger] r1[i].0 == r2[i].0,
        forall|i: int| 0 <= i < r1.len() && r1[i].0 == k ==> #[trigger] r1[i].1 == r2[i].1,
    ensures
        key_list(r1, k) == key_list(r2, k),
{
    if exists|i: int| 0 <= i < r1.len() && r1[i].0 == k {
        let i = choose|i: int| 0 <= i < r1.len() && r1[i].0 == k;
        lemma_key_list_at(r1, i);
        lemma_key_list_at(r2, i);
    } else {
        lemma_key_list_absent(r1, k);
        assert forall|i: int| 0 <= i < r2.len() implies #[trigger] r2[i].0 != k by {
            assert(r1[i].0 == r2[i].0);
        }
        lemma_key_list_absent(r2, k);
    }
}

/// The store's capacities, fixed when it is opened.
#[derive(Clone, Copy, Debug, PartialEq, Eq, Structural)]
pub struct StoreConfig {
    /// In-memory cache size, in bytes.
    pub cache_size_bytes: u64,
    /// Largest size the store may grow to, in bytes.
    pub disk_size_bytes: u64,
    /// Largest encoded key a write may carry, in bytes.
    pub max_key_size: u64,
    /// Largest encoded record a write may carry, in bytes.
    pub max_value_size: u64,
}

/// Default in-memory cache size: 1 GiB.
pub const DB_DRAM_CACHE_SIZE: u64 = 1024 * 1024 * 1024;

/// Default largest store size: 128 GiB.
pub const DB_DISK_MAX_SIZE: u64 = 128 * 1024 * 1024 * 1024;

/// Default largest encoded key.
pub const DB_KEY_SIZE: u64 = 60;

/// Default largest encoded record.
pub const DB_VALUE_SIZE: u64 = 512;

impl StoreConfig {
    /// The default capacities.
    pub fn standard() -> (r: Self)
        ensures
            r.cache_size_bytes == DB_DRAM_CACHE_SIZE,
            r.disk_size_bytes == DB_DISK_MAX_SIZE,
            r.max_key_size == DB_KEY_SIZE,
            r.max_value_size == DB_VALUE_SIZE,
    {
        StoreConfig {
            cache_size_bytes: DB_DRAM_CACHE_SIZE,
            disk_size_bytes: DB_DISK_MAX_SIZE,
            max_key_size: DB_KEY_SIZE,
            max_value_size: DB_VALUE_SIZE,
        }
    }
}

/// A write the store refuses because it exceeds a configured capacity.
#[derive(Clone, Copy, Debug, PartialEq, Eq, Structural)]
pub enum CapacityError {
    /// The encoded key is larger than the largest key allowed.
    KeyTooLarge,
    /// The encoded record is larger than the largest record allowed.
    ValueTooLarge,
}

/// Whether a write of `op` under `key` fits the capacities of `config`.
pub open spec fn write_fits(config: StoreConfig, key: u64, op: MergeOp) -> bool {
    enc_u64(key).len() <= config.max_key_size && enc_op(op_model(op)).len() <= config.max_value_size
}

/// A keyspace of the store.
pub struct Partition {
    records: Vec<(u64, PersistedValue)>,
    config: StoreConfig,
    log: Ghost<Seq<(u64, OpModel)>>,
}

impl Partition {
    /// The records, in key order.
    pub closed spec fn spec_records(&self) -> Seq<(u64, PersistedValue)> {
        self.records@
    }

    /// The capacities of the store the keyspace belongs to.
    pub closed spec fn spec_config(&self) -> StoreConfig {
        self.config
    }

    /// Every merge operation the keyspace has taken, with its key, in order.
    pub closed spec fn spec_log(&self) -> Seq<(u64, OpModel)> {
        self.log@
    }

    pub open spec fn wf(&self) -> bool {
        records_wf(self.spec_records())
    }

    /// An empty keyspace of a store with the given capacities.
    pub fn new(config: StoreConfig) -> (r: Self)
        ensures
            r.wf(),
            r.spec_records() == Seq::<(u64, PersistedValue)>::empty(),
            r.spec_config() == config,
            r.spec_log() == Seq::<(u64, OpModel)>::empty(),
    {
        Partition { records: Vec::new(), config, log: Ghost(Seq::empty()) }
    }

    /// The capacities of the store the keyspace belongs to.
    pub fn config(&self) -> (r: StoreConfig)
        ensures
            r == self.spec_config(),
    {
        self.config
    }

    /// The records, in key order.
    pub fn records(&self) -> (r: &Vec<(u64, PersistedValue)>)
        ensures
            r@ == self.spec_records(),
    {
        &self.records
    }

    /// Writes a merge operation under `key`: the key's record becomes what the
    /// merge policy makes of it and the operation; other keys keep theirs.
    ///
    /// A write whose encoded key or record exceeds the store's capacities is
    /// refused, with the keyspace left as it was.
    pub fn write(&mut self, key: u64, op: &MergeOp) -> (r: Result<(), CapacityError>)
        requires
            old(self).wf(),
            op_wf(*op),
        ensures
            final(self).wf(),
            final(self).spec_config() == old(self).spec_config(),
            (r is Ok) == write_fits(old(self).spec_config(), key, *op),
            r == Err::<(), CapacityError>(CapacityError::KeyTooLarge) <==> enc_u64(key).len()
                > old(self).spec_config().max_key_size,
            r is Err ==> final(self).spec_records() == old(self).spec_records(),
            r is Err ==> final(self).spec_log() == old(self).spec_log(),
            r is Ok ==> final(self).spec_log() == old(self).spec_log().push((key, op_model(*op))),
            r is Ok ==> forall|k: u64| k != key ==> #[trigger] key_list(final(self).spec_records(), k) == key_list(
                old(self).spec_records(),
                k,
            ),
            r is Ok ==> forall|v: Seq<u8>, t: u64|
                #[trigger] list_weight(key_list(final(self).spec_records(), key), v, t) == op_weight(
                    key_list(old(self).spec_records(), key),
                    *op,
                    v,
                    t,
                ),
    {
        if 8 > self.config.max_key_size {
            return Err(CapacityError::KeyTooLarge);
        }
        let encoded = encode_op(op);
        if encoded.len() as u64 > self.config.max_value_size {
            return Err(CapacityError::ValueTooLarge);
        }
        self.log = Ghost(self.log@.push((key, op_model(*op))));
        let ghost r0 = self.records@;
        let mut i: usize = 0;
        while i < self.records.len() && self.records[i].0 < key
            invariant
                0 <= i <= self.records@.len(),
                self.records@ == r0,
                records_wf(r0),
                forall|j: int| 0 <= j < i ==> #[trigger] r0[j].0 < key,
            decreases self.records@.len() - i,
        {
            i = i + 1;
        }
        if i < self.records.len() && self.records[i].0 == key {
            proof {
                lemma_key_list_at(r0, i as int);
            }
            let pv = apply_merge_op(&self.records[i].1, op);
            let ghost pvg = pv;
            self.records.set(i, (key, pv));
            proof {
                let r1 = self.records@;
                assert(r1 == r0.update(i as int, (key, pvg)));
                assert(records_wf(r1));
                lemma_key_list_at(r1, i as int);
                assert forall|k: u64| k != key implies #[trigger] key_list(r1, k) == key_list(r0, k) by {
                    lemma_key_list_same_keys(r0, r1, k);
                }
            }
        } else {
            proof {
                assert forall|j: int| 0 <= j < r0.len() implies #[trigger] r0[j].0 != key by {
                    if j >= i {
                        if j > i {
                            assert(r0[i as int].0 < r0[j].0);
                        }
                    }
                }
                lemma_key_list_absent(r0, key);
                assert(pv_list(PersistedValue::Tombstone) =~= Seq::<(Seq<u8>, Seq<(u64, i64)>)>::empty());
            }
            let pv = apply_merge_op(&PersistedValue::Tombstone, op);
            let ghost pvg = pv;
            self.records.insert(i, (key, pv));
            proof {
                let r1 = self.records@;
                assert(r1 == r0.insert(i as int, (key, pvg)));
                assert forall|a: int, b: int| 0 <= a < b < r1.len() implies r1[a].0 < r1[b].0 by {
                    if a < i && b > i {
                        assert(r1[b] == r0[b - 1]);
                    } else if a > i {
                        assert(r1[a] == r0[a - 1]);
                        assert(r1[b] == r0[b - 1]);
                    } else if a == i {
                        assert(r1[b] == r0[b - 1]);
                        assert(r0[b - 1].0 != key);
                    }
                }
                assert forall|a: int| 0 <= a < r1.len() implies pv_wf(#[trigger] r1[a].1) by {
                    if a > i {
                        assert(r1[a] == r0[a - 1]);
                    }
                }
                lemma_key_list_at(r1, i as int);
                assert forall|k: u64| k != key implies #[trigger] key_list(r1, k) == key_list(r0, k) by {
                    if exists|j: int| 0 <= j < r0.len() && r0[j].0 == k {
                        let j = choose|j: int| 0 <= j < r0.len() && r0[j].0 == k;
                        lemma_key_list_at(r0, j);
                        if j < i {
                            assert(r1[j] == r0[j]);
                            lemma_key_list_at(r1, j);
                        } else {
                            assert(r1[j + 1] == r0[j]);
                            lemma_key_list_at(r1, j + 1);
                        }
                    } else {
                        lemma_key_list_absent(r0, k);
                        assert forall|j: int| 0 <= j < r1.len() implies #[trigger] r1[j].0 != k by {
                            if j < i {
                                assert(r1[j] == r0[j]);
                            } else if j > i {
                                assert(r1[j] == r0[j - 1]);
                            }
                        }
                        lemma_key_list_absent(r1, k);
                    }
                }
            }
        }
        Ok(())
    }

    /// Sends `RecedeTo(f)` to every key: each record's times after `f`
    /// collapse onto `f`.
    pub fn recede_all(&mut self, f: u64)
        requires
            old(self).wf(),
        ensures
            final(self).wf(),
            final(self).spec_config() == old(self).spec_config(),
            final(self).spec_log() == old(self).spec_log() + old(self).spec_records().map_values(
                |r: (u64, PersistedValue)| (r.0, OpModel::RecedeTo(f)),
            ),
            forall|k: u64, v: Seq<u8>, t: u64|
                #[trigger] list_weight(key_list(final(self).spec_records(), k), v, t)
                    == list_recede_weight(key_list(old(self).spec_records(), k), f, v, t),
    {
        let ghost r0 = self.records@;
        let ghost cfg = self.config;
        let ghost log0 = self.log@;
        let op = MergeOp::RecedeTo(f);
        let mut i: usize = 0;
        while i < self.records.len()
            invariant
                0 <= i <= self.records@.len(),
                self.config == cfg,
                self.log@ == log0 + r0.take(i as int).map_values(|r: (u64, PersistedValue)| (r.0, OpModel::RecedeTo(f))),
                self.records@.len() == r0.len(),
                records_wf(r0),
                records_wf(self.records@),
                op == MergeOp::RecedeTo(f),
                forall|j: int| 0 <= j < r0.len() ==> #[trigger] self.records@[j].0 == r0[j].0,
                forall|j: int| i <= j < r0.len() ==> #[trigger] self.records@[j].1 == r0[j].1,
                forall|j: int, v: Seq<u8>, t: u64|
                    0 <= j < i ==> #[trigger] list_weight(pv_list(self.records@[j].1), v, t)
                        == list_recede_weight(pv_list(r0[j].1), f, v, t),
            decreases self.records@.len() - i,
        {
            let key = self.records[i].0;
            let pv = apply_merge_op(&self.records[i].1, &op);
            self.records.set(i, (key, pv));
            proof {
                assert(r0.take(i + 1).map_values(|r: (u64, PersistedValue)| (r.0, OpModel::RecedeTo(f)))
                    =~= r0.take(i as int).map_values(|r: (u64, PersistedValue)| (r.0, OpModel::RecedeTo(f))).push(
                    (key, OpModel::RecedeTo(f)),
                ));
            }
            self.log = Ghost(self.log@.push((key, OpModel::RecedeTo(f))));
            i = i + 1;
        }
        proof {
            assert(r0.take(i as int) =~= r0);
            let r1 = self.records@;
            assert forall|k: u64, v: Seq<u8>, t: u64|
                #[trigger] list_weight(key_list(r1, k), v, t) == list_recede_weight(key_list(r0, k), f, v, t) by {
                if exists|j: int| 0 <= j < r0.len() && r0[j].0 == k {
                    let j = choose|j: int| 0 <= j < r0.len() && r0[j].0 == k;
                    lemma_key_list_at(r0, j);
                    lemma_key_list_at(r1, j);
                    assert(list_weight(pv_list(r1[j].1), v, t) == list_recede_weight(pv_list(r0[j].1), f, v, t));
                } else {
                    lemma_key_list_absent(r0, k);
                    assert forall|j: int| 0 <= j < r1.len() implies #[trigger] r1[j].0 != k by {
                        assert(r1[j].0 == r0[j].0);
                    }
                    lemma_key_list_absent(r1, k);
                    assert(crate::record::tw_weight(Seq::<(u64, i64)>::empty(), t) == 0);
                }
            }
        }
    }

    /// Finishes merging every record: tombstones are deleted, other records
    /// kept. No key's value list changes.
    pub fn compact(&mut self)
        requires
            old(self).wf(),
        ensures
            final(self).wf(),
            final(self).spec_config() == old(self).spec_config(),
            final(self).spec_log() == old(self).spec_log(),
            forall|k: u64| #[trigger] key_list(final(self).spec_records(), k) == key_list(old(self).spec_records(), k),
            forall|i: int|
                0 <= i < final(self).spec_records().len() ==> !(#[trigger] final(self).spec_records()[i].1 is Tombstone),
    {
        let ghost r0 = self.records@;
        let ghost cfg = self.config;
        let ghost lg = self.log;
        let mut kept: Vec<(u64, PersistedValue)> = Vec::new();
        let ghost mut i: int = 0;
        while self.records.len() > 0
            invariant
                0 <= i <= r0.len(),
                self.config == cfg,
                self.log == lg,
                self.records@ == r0.subrange(i, r0.len() as int),
                records_wf(r0),
                records_wf(kept@),
                forall|j: int| 0 <= j < kept@.len() ==> !(#[trigger] kept@[j].1 is Tombstone),
                forall|j: int| #![trigger kept@[j]] 0 <= j < kept@.len() ==> exists|m: int| 0 <= m < i && (#[trigger] r0[m]) == kept@[j],
                forall|k: u64| #[trigger] key_list(kept@, k) == key_list(r0.take(i), k),
            decreases self.records@.len(),
        {
            let rec = self.records.remove(0);
            let ghost rg = rec;
            proof {
                assert(rg == r0[i]);
                assert(r0.take(i + 1).drop_last() =~= r0.take(i));
                assert(r0.take(i + 1).last() == r0[i]);
                assert(self.records@ =~= r0.subrange(i + 1, r0.len() as int));
            }
            match rec.1 {
                PersistedValue::Tombstone => {
                    proof {
                        assert forall|k: u64| #[trigger] key_list(kept@, k) == key_list(r0.take(i + 1), k) by {
                            if k == rg.0 {
                                assert(pv_list(PersistedValue::Tombstone) =~= Seq::<(Seq<u8>, Seq<(u64, i64)>)>::empty());
                                assert forall|j: int| 0 <= j < kept@.len() implies #[trigger] kept@[j].0 != k by {
                                    let m = choose|m: int| 0 <= m < i && (#[trigger] r0[m]) == kept@[j];
                                    assert(r0[m].0 < r0[i].0);
                                }
                                lemma_key_list_absent(kept@, k);
                                assert forall|j: int| 0 <= j < i implies #[trigger] r0.take(i)[j].0 != k by {
                                    assert(r0.take(i)[j] == r0[j]);
                                    assert(r0[j].0 < r0[i].0);
                                }
                                lemma_key_list_absent(r0.take(i), k);
                            }
                        }
                    }
                },
                PersistedValue::Values(l) => {
                    let ghost before = kept@;
                    kept.push((rec.0, PersistedValue::Values(l)));
                    proof {
                        assert(kept@ == before.push(rg));
                        assert(kept@.drop_last() =~= before);
                        assert forall|a: int, b: int| 0 <= a < b < kept@.len() implies kept@[a].0 < kept@[b].0 by {
                            if b == before.len() {
                                let m = choose|m: int| 0 <= m < i && (#[trigger] r0[m]) == before[a];
                                assert(r0[m].0 < r0[i].0);
                            } else {
                                assert(kept@[a] == before[a]);
                                assert(kept@[b] == before[b]);
                            }
                        }
                        assert forall|a: int| 0 <= a < kept@.len() implies pv_wf(#[trigger] kept@[a].1) by {
                            if a < before.len() {
                                assert(kept@[a] == before[a]);
                                let m = choose|m: int| 0 <= m < i && (#[trigger] r0[m]) == before[a];
                            }
                        }
                        assert forall|j: int| #![trigger kept@[j]] 0 <= j < kept@.len() implies exists|m: int| 0 <= m < i + 1 && (#[trigger] r0[m]) == kept@[j] by {
                            if j < before.len() {
                                assert(kept@[j] == before[j]);
                                let m = choose|m: int| 0 <= m < i && (#[trigger] r0[m]) == before[j];
                                assert(r0[m] == kept@[j]);
                            } else {
                                assert(r0[i] == kept@[j]);
                            }
                        }
                        assert forall|j: int| 0 <= j < kept@.len() implies !(#[trigger] kept@[j].1 is Tombstone) by {
                            if j < before.len() {
                                assert(kept@[j] == before[j]);
                            }
                        }
                        assert forall|k: u64| #[trigger] key_list(kept@, k) == key_list(r0.take(i + 1), k) by {
                            assert(key_list(before, k) == key_list(r0.take(i), k));
                        }
                    }
                },
            }
            proof {
                i = i + 1;
            }
        }
        proof {
            assert(i == r0.len()) by {
                assert(r0.subrange(i, r0.len() as int).len() == 0);
            }
            assert(r0.take(i) =~= r0);
        }
        self.records = kept;
    }
}

} // verus!
