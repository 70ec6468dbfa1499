//! The cursor over a trace: the records of its keyspace seen as groups of
//! `(key, value, (time, weight) pairs)`, in key order and then value order,
//! never showing a key below the trace's lower key bound.

use vstd::prelude::*;
use crate::partition::{records_wf, Partition};
use crate::record::{
    bytes_lt, compare_bytes, copy_bytes, copy_times, list_view, list_wf, pv_list,
    pv_wf, times_wf, EntryModel, ListModel, PersistedValue, TimeWeights, TimesModel,
};

verus! {

/// One group: a key, one of its values, and the value's `(time, weight)` pairs.
pub type Group = (u64, Vec<u8>, TimeWeights);

/// Model of a group.
pub type GroupModel = (u64, Seq<u8>, TimesModel);

pub open spec fn group_view(g: Group) -> GroupModel {
    (g.0, g.1@, g.2@)
}

/// Whether key `k` is at or above the lower key bound.
pub open spec fn above_bound(k: u64, bound: Option<u64>) -> bool {
    match bound {
        Some(b) => k >= b,
        None => true,
    }
}

/// The groups of one key's value list.
pub open spec fn record_groups(k: u64, l: ListModel) -> Seq<GroupModel> {
    l.map_values(|e: EntryModel| (k, e.0, e.1))
}

/// The groups that a cursor over records `r` shows: those of each key at or
/// above the bound, in record order.
pub open spec fn groups_of(r: Seq<(u64, PersistedValue)>, bound: Option<u64>) -> Seq<GroupModel>
    decreases r.len(),
{
    if r.len() == 0 {
        Seq::empty()
    } else {
        groups_of(r.drop_last(), bound) + if above_bound(r.last().0, bound) {
            record_groups(r.last().0, pv_list(r.last().1))
        } else {
            Seq::empty()
        }
    }
}

/// Groups strictly increasing by key and then by value, each with a
/// non-empty well-formed `(time, weight)` list.
pub open spec fn groups_wf(g: Seq<GroupModel>) -> bool {
    &&& forall|i: int, j: int|
        #![trigger g[i], g[j]]
        0 <= i < j < g.len() ==> g[i].0 < g[j].0 || (g[i].0 == g[j].0 && bytes_lt(g[i].1, g[j].1))
    &&& forall|i: int| 0 <= i < g.len() ==> (#[trigger] g[i]).2.len() > 0 && times_wf(g[i].2)
}

/// The groups of well-formed records are well formed, and each shows a key
/// of the records at or above the bound.
pub proof fn lemma_groups_of_wf(r: Seq<(u64, PersistedValue)>, bound: Option<u64>)
    requires
        records_wf(r),
    ensures
        groups_wf(groups_of(r, bound)),
        forall|i: int|
            0 <= i < groups_of(r, bound).len() ==> above_bound(#[trigger] groups_of(r, bound)[i].0, bound)
                && exists|j: int| 0 <= j < r.len() && r[j].0 == groups_of(r, bound)[i].0,
    decreases r.len(),
{
    if r.len() > 0 {
        let p = r.drop_last();
        assert(records_wf(p)) by {
            assert forall|i: int| 0 <= i < p.len() implies pv_wf(#[trigger] p[i].1) by {
                assert(p[i] == r[i]);
            }
        }
        lemma_groups_of_wf(p, bound);
        let gp = groups_of(p, bound);
        let k = r.last().0;
        let l = pv_list(r.last().1);
        assert(pv_wf(r[r.len() - 1].1));
        let tail = if above_bound(k, bound) {
            record_groups(k, l)
        } else {
            Seq::<GroupModel>::empty()
        };
        let g = gp + tail;
        assert(g == groups_of(r, bound));
        assert(list_wf(l)) by {
            if r.last().1 is Tombstone {
                assert(l =~= Seq::<EntryModel>::empty());
            }
        }
        assert forall|a: int| 0 <= a < tail.len() implies #[trigger] tail[a] == (k, l[a].0, l[a].1) by {}
        assert forall|i: int| 0 <= i < gp.len() implies #[trigger] gp[i].0 < k by {
            let j = choose|j: int| 0 <= j < p.len() && p[j].0 == gp[i].0;
            assert(p[j] == r[j]);
        }
        assert forall|i: int, j: int| #![trigger g[i], g[j]] 0 <= i < j < gp.len() implies g[i].0 < g[j].0 || (g[i].0 == g[j].0
            && bytes_lt(g[i].1, g[j].1)) by {
            assert(g[i] == gp[i]);
            assert(g[j] == gp[j]);
        }
        assert forall|i: int, j: int| #![trigger g[i], g[j]] 0 <= i < gp.len() <= j < g.len() implies g[i].0 < g[j].0 by {
            assert(g[i] == gp[i]);
            assert(g[j] == tail[j - gp.len()]);
            assert(gp[i].0 < k);
        }
        assert forall|i: int, j: int| #![trigger g[i], g[j]] gp.len() <= i < j < g.len() implies g[i].0 == g[j].0 && bytes_lt(
            g[i].1,
            g[j].1,
        ) by {
            assert(g[i] == tail[i - gp.len()]);
            assert(g[j] == tail[j - gp.len()]);
            assert(bytes_lt(l[i - gp.len()].0, l[j - gp.len()].0));
        }
        assert forall|i: int, j: int| #![trigger g[i], g[j]] 0 <= i < j < g.len() implies g[i].0 < g[j].0 || (g[i].0 == g[j].0
            && bytes_lt(g[i].1, g[j].1)) by {
            if j < gp.len() {
            } else if i < gp.len() {
            } else {
            }
        }
        assert forall|i: int| 0 <= i < g.len() implies (#[trigger] g[i]).2.len() > 0 && times_wf(g[i].2) by {
            if i >= gp.len() {
                assert(g[i] == tail[i - gp.len()]);
            } else {
                assert(g[i] == gp[i]);
            }
        }
        assert forall|i: int| 0 <= i < g.len() implies above_bound(#[trigger] g[i].0, bound) && exists|j: int|
            0 <= j < r.len() && r[j].0 == g[i].0 by {
            if i >= gp.len() {
                assert(g[i] == tail[i - gp.len()]);
                assert(r[r.len() - 1].0 == g[i].0);
            } else {
                assert(g[i] == gp[i]);
                let j = choose|j: int| 0 <= j < p.len() && p[j].0 == gp[i].0;
                assert(p[j] == r[j]);
            }
        }
    }
}

/// The first position after `p` that holds another key than `p` does, or
/// the number of groups.
pub open spec fn is_next_key_pos(g: Seq<GroupModel>, p: int, q: int) -> bool {
    &&& p < q <= g.len()
    &&& forall|i: int| p < i < q ==> #[trigger] g[i].0 == g[p].0
    &&& q < g.len() ==> g[q].0 != g[p].0
}

/// Position `q` holds the first value of its key.
pub open spec fn is_key_start(g: Seq<GroupModel>, q: int) -> bool {
    0 <= q < g.len() && (q == 0 || g[q - 1].0 != g[q].0)
}

/// Position `q` holds the last value of its key.
pub open spec fn is_key_end(g: Seq<GroupModel>, q: int) -> bool {
    0 <= q < g.len() && (q == g.len() - 1 || g[q + 1].0 != g[q].0)
}

/// The cursor over a trace.
pub struct PersistentTraceCursor {
    groups: Vec<Group>,
    pos: usize,
    val_ok: bool,
}

impl PersistentTraceCursor {
    /// The groups the cursor walks over, in order.
    pub closed spec fn spec_groups(&self) -> Seq<GroupModel> {
        self.groups@.map_values(|g: Group| group_view(g))
    }

    /// The position of the current group; the number of groups once the
    /// keys are exhausted.
    pub closed spec fn spec_pos(&self) -> int {
        self.pos as int
    }

    /// Whether the current value is valid.
    pub closed spec fn spec_val_valid(&self) -> bool {
        self.val_ok
    }

    pub open spec fn spec_key_valid(&self) -> bool {
        self.spec_pos() < self.spec_groups().len()
    }

    pub open spec fn wf(&self) -> bool {
        &&& 0 <= self.spec_pos() <= self.spec_groups().len()
        &&& self.spec_val_valid() ==> self.spec_key_valid()
        &&& groups_wf(self.spec_groups())
    }

    /// The key of the current group.
    pub open spec fn spec_key(&self) -> u64 {
        self.spec_groups()[self.spec_pos()].0
    }

    /// Opens a cursor over the records of `part` whose keys are at or above
    /// `bound`, positioned on the first group.
    pub fn new(part: &Partition, bound: Option<u64>) -> (r: Self)
        requires
            part.wf(),
        ensures
            r.wf(),
            r.spec_groups() == groups_of(part.spec_records(), bound),
            r.spec_pos() == 0,
            r.spec_val_valid() == (r.spec_groups().len() > 0),
            forall|i: int| 0 <= i < r.spec_groups().len() ==> above_bound(#[trigger] r.spec_groups()[i].0, bound),
    {
        let records = part.records();
        let ghost rs = records@;
        let mut groups: Vec<Group> = Vec::new();
        let mut i: usize = 0;
        while i < records.len()
            invariant
                0 <= i <= records@.len(),
                rs == records@,
                groups@.map_values(|g: Group| group_view(g)) == groups_of(rs.take(i as int), bound),
            decreases records@.len() - i,
        {
            let key = records[i].0;
            let ghost before = groups@.map_values(|g: Group| group_view(g));
            proof {
                assert(rs.take(i + 1).drop_last() =~= rs.take(i as int));
                assert(rs.take(i + 1).last() == rs[i as int]);
            }
            let in_range = match bound {
                Some(b) => key >= b,
                None => true,
            };
            if in_range {
                match &records[i].1 {
                    PersistedValue::Values(l) => {
                        let ghost lv = list_view(l@);
                        let mut j: usize = 0;
                        while j < l.len()
                            invariant
                                0 <= j <= l@.len(),
                                lv == list_view(l@),
                                groups@.map_values(|g: Group| group_view(g)) == before + record_groups(
                                    key,
                                    lv.take(j as int),
                                ),
                            decreases l@.len() - j,
                        {
                            let g: Group = (key, copy_bytes(&l[j].0), copy_times(&l[j].1));
                            proof {
                                assert(groups@.push(g).map_values(|g: Group| group_view(g))
                                    =~= groups@.map_values(|g: Group| group_view(g)).push(group_view(g)));
                                assert(record_groups(key, lv.take(j + 1)) =~= record_groups(key, lv.take(j as int)).push(
                                    group_view(g),
                                ));
                                assert(before + record_groups(key, lv.take(j + 1)) =~= (before + record_groups(
                                    key,
                                    lv.take(j as int),
                                )).push(group_view(g)));
                            }
                            groups.push(g);
                            j = j + 1;
                        }
                        proof {
                            assert(lv.take(j as int) =~= lv);
                        }
                    },
                    PersistedValue::Tombstone => {
                        proof {
                            assert(record_groups(key, pv_list(PersistedValue::Tombstone)) =~= Seq::<GroupModel>::empty());
                            assert(before + Seq::<GroupModel>::empty() =~= before);
                        }
                    },
                }
            } else {
                proof {
                    assert(before + Seq::<GroupModel>::empty() =~= before);
                }
            }
            i = i + 1;
        }
        proof {
            assert(rs.take(i as int) =~= rs);
            lemma_groups_of_wf(rs, bound);
        }
        let n = groups.len();
        PersistentTraceCursor { groups, pos: 0, val_ok: n > 0 }
    }

    pub fn key_valid(&self) -> (r: bool)
        requires
            self.wf(),
        ensures
            r == self.spec_key_valid(),
    {
        self.pos < self.groups.len()
    }

    pub fn val_valid(&self) -> (r: bool)
        ensures
            r == self.spec_val_valid(),
    {
        self.val_ok
    }

    /// The current key; the cursor must be on a valid key.
    pub fn key(&self) -> (r: u64)
        requires
            self.wf(),
            self.spec_key_valid(),
        ensures
            r == self.spec_key(),
    {
        self.groups[self.pos].0
    }

    /// The current value; the cursor must be on a valid value.
    pub fn val(&self) -> (r: &Vec<u8>)
        requires
            self.wf(),
            self.spec_val_valid(),
        ensures
            r@ == self.spec_groups()[self.spec_pos()].1,
    {
        &self.groups[self.pos].1
    }
}

/// Keys never decrease along well-formed groups.
pub proof fn lemma_keys_sorted(g: Seq<GroupModel>, a: int, b: int)
    requires
        groups_wf(g),
        0 <= a <= b < g.len(),
    ensures
        g[a].0 <= g[b].0,
{
    if a < b {
        assert(g[a].0 < g[b].0 || (g[a].0 == g[b].0 && bytes_lt(g[a].1, g[b].1)));
    }
}

impl PersistentTraceCursor {
    /// Moves to the first value of the next key; past the last key the keys
    /// are exhausted.
    pub fn step_key(&mut self)
        requires
            old(self).wf(),
        ensures
            final(self).wf(),
            final(self).spec_groups() == old(self).spec_groups(),
            old(self).spec_key_valid() ==> is_next_key_pos(
                old(self).spec_groups(),
                old(self).spec_pos(),
                final(self).spec_pos(),
            ) && final(self).spec_val_valid() == final(self).spec_key_valid(),
            !old(self).spec_key_valid() ==> final(self).spec_pos() == old(self).spec_pos()
                && final(self).spec_val_valid() == old(self).spec_val_valid(),
    {
        let ghost g = self.spec_groups();
        if self.pos < self.groups.len() {
            let key = self.groups[self.pos].0;
            assert(g[self.pos as int].0 == key);
            let mut i: usize = self.pos + 1;
            while i < self.groups.len() && self.groups[i].0 == key
                invariant
                    self.pos < i <= self.groups@.len(),
                    g == self.spec_groups(),
                    g.len() == self.groups@.len(),
                    g[self.pos as int].0 == key,
                    forall|j: int| self.pos < j < i ==> #[trigger] g[j].0 == key,
                decreases self.groups@.len() - i,
            {
                assert(g[i as int] == group_view(self.groups@[i as int]));
                i = i + 1;
            }
            proof {
                if i < self.groups@.len() {
                    assert(g[i as int] == group_view(self.groups@[i as int]));
                }
            }
            self.pos = i;
            self.val_ok = i < self.groups.len();
        }
    }

    /// Moves to the first value of the previous key; before the first key
    /// the keys are exhausted.
    pub fn step_key_reverse(&mut self)
        requires
            old(self).wf(),
        ensures
            final(self).wf(),
            final(self).spec_groups() == old(self).spec_groups(),
            old(self).spec_key_valid() ==> if old(self).spec_groups()[0].0 == old(self).spec_key() {
                !final(self).spec_key_valid() && !final(self).spec_val_valid()
            } else {
                &&& is_key_start(final(self).spec_groups(), final(self).spec_pos())
                &&& final(self).spec_key() < old(self).spec_key()
                &&& forall|q: int|
                    0 <= q < old(self).spec_groups().len() && #[trigger] old(self).spec_groups()[q].0
                        < old(self).spec_key() ==> old(self).spec_groups()[q].0 <= final(self).spec_key()
                &&& final(self).spec_val_valid()
            },
            !old(self).spec_key_valid() ==> final(self).spec_pos() == old(self).spec_pos()
                && final(self).spec_val_valid() == old(self).spec_val_valid(),
    {
        let ghost g = self.spec_groups();
        if self.pos < self.groups.len() {
            let key = self.groups[self.pos].0;
            assert(g[self.pos as int].0 == key);
            let start = self.key_start(self.pos);
            if start == 0 {
                self.pos = self.groups.len();
                self.val_ok = false;
            } else {
                let prev = start - 1;
                proof {
                    lemma_keys_sorted(g, prev as int, self.pos as int);
                }
                let ps = self.key_start(prev);
                proof {
                    assert forall|q: int| 0 <= q < g.len() && #[trigger] g[q].0 < key implies g[q].0 <= g[ps as int].0 by {
                        if q >= start {
                            lemma_keys_sorted(g, start as int, q);
                        } else {
                            lemma_keys_sorted(g, q, prev as int);
                        }
                    }
                }
                self.pos = ps;
                self.val_ok = true;
            }
        }
    }

    /// The first position of the key at position `p`.
    fn key_start(&self, p: usize) -> (r: usize)
        requires
            self.wf(),
            p < self.spec_groups().len(),
        ensures
            r <= p,
            is_key_start(self.spec_groups(), r as int),
            forall|i: int| r <= i <= p ==> #[trigger] self.spec_groups()[i].0 == self.spec_groups()[p as int].0,
    {
        let ghost g = self.spec_groups();
        let key = self.groups[p].0;
        assert(g[p as int].0 == key);
        let mut i: usize = p;
        while i > 0 && self.groups[i - 1].0 == key
            invariant
                i <= p < self.groups@.len(),
                g == self.spec_groups(),
                g.len() == self.groups@.len(),
                forall|j: int| i <= j <= p ==> #[trigger] g[j].0 == key,
            decreases i,
        {
            assert(g[i - 1] == group_view(self.groups@[i - 1]));
            i = i - 1;
        }
        proof {
            if i > 0 {
                assert(g[i - 1] == group_view(self.groups@[i - 1]));
            }
        }
        i
    }

    /// The last position of the key at position `p`.
    fn key_end(&self, p: usize) -> (r: usize)
        requires
            self.wf(),
            p < self.spec_groups().len(),
        ensures
            p <= r,
            is_key_end(self.spec_groups(), r as int),
            forall|i: int| p <= i <= r ==> #[trigger] self.spec_groups()[i].0 == self.spec_groups()[p as int].0,
    {
        let ghost g = self.spec_groups();
        let key = self.groups[p].0;
        assert(g[p as int].0 == key);
        let mut i: usize = p;
        while i < self.groups.len() - 1 && self.groups[i + 1].0 == key
            invariant
                p <= i < self.groups@.len(),
                g == self.spec_groups(),
                g.len() == self.groups@.len(),
                forall|j: int| p <= j <= i ==> #[trigger] g[j].0 == key,
            decreases self.groups@.len() - i,
        {
            assert(g[i + 1] == group_view(self.groups@[i + 1]));
            i = i + 1;
        }
        proof {
            if i + 1 < self.groups@.len() {
                assert(g[i + 1] == group_view(self.groups@[i + 1]));
            }
        }
        i
    }

    /// Moves to the next value of the current key; past its last value the
    /// value becomes invalid and the cursor stays on the key.
    pub fn step_val(&mut self)
        requires
            old(self).wf(),
        ensures
            final(self).wf(),
            final(self).spec_groups() == old(self).spec_groups(),
            old(self).spec_val_valid() ==> if old(self).spec_pos() + 1 < old(self).spec_groups().len()
                && old(self).spec_groups()[old(self).spec_pos() + 1].0 == old(self).spec_key() {
                final(self).spec_pos() == old(self).spec_pos() + 1 && final(self).spec_val_valid()
            } else {
                final(self).spec_pos() == old(self).spec_pos() && !final(self).spec_val_valid()
            },
            !old(self).spec_val_valid() ==> final(self).spec_pos() == old(self).spec_pos()
                && !final(self).spec_val_valid(),
    {
        let ghost g = self.spec_groups();
        if self.val_ok {
            proof {
                if self.pos + 1 < self.groups@.len() {
                    assert(g[self.pos + 1] == group_view(self.groups@[self.pos + 1]));
                }
                assert(g[self.pos as int] == group_view(self.groups@[self.pos as int]));
            }
            if self.pos < self.groups.len() - 1 && self.groups[self.pos + 1].0 == self.groups[self.pos].0 {
                self.pos = self.pos + 1;
            } else {
                self.val_ok = false;
            }
        }
    }

    /// Moves to the previous value of the current key; before its first
    /// value the value becomes invalid and the cursor stays on the key.
    pub fn step_val_reverse(&mut self)
        requires
            old(self).wf(),
        ensures
            final(self).wf(),
            final(self).spec_groups() == old(self).spec_groups(),
            old(self).spec_val_valid() ==> if old(self).spec_pos() > 0
                && old(self).spec_groups()[old(self).spec_pos() - 1].0 == old(self).spec_key() {
                final(self).spec_pos() == old(self).spec_pos() - 1 && final(self).spec_val_valid()
            } else {
                final(self).spec_pos() == old(self).spec_pos() && !final(self).spec_val_valid()
            },
            !old(self).spec_val_valid() ==> final(self).spec_pos() == old(self).spec_pos()
                && !final(self).spec_val_valid(),
    {
        let ghost g = self.spec_groups();
        if self.val_ok {
            proof {
                if self.pos > 0 {
                    assert(g[self.pos - 1] == group_view(self.groups@[self.pos - 1]));
                }
                assert(g[self.pos as int] == group_view(self.groups@[self.pos as int]));
            }
            if self.pos > 0 && self.groups[self.pos - 1].0 == self.groups[self.pos].0 {
                self.pos = self.pos - 1;
            } else {
                self.val_ok = false;
            }
        }
    }

    /// Moves to the first value of the first key.
    pub fn rewind_keys(&mut self)
        requires
            old(self).wf(),
        ensures
            final(self).wf(),
            final(self).spec_groups() == old(self).spec_groups(),
            final(self).spec_pos() == 0,
            final(self).spec_val_valid() == final(self).spec_key_valid(),
    {
        self.pos = 0;
        self.val_ok = self.groups.len() > 0;
    }

    /// Moves to the first value of the last key.
    pub fn fast_forward_keys(&mut self)
        requires
            old(self).wf(),
        ensures
            final(self).wf(),
            final(self).spec_groups() == old(self).spec_groups(),
            old(self).spec_groups().len() > 0 ==> is_key_start(final(self).spec_groups(), final(self).spec_pos())
                && final(self).spec_key() == old(self).spec_groups().last().0 && final(self).spec_val_valid(),
            old(self).spec_groups().len() == 0 ==> !final(self).spec_key_valid() && !final(self).spec_val_valid(),
    {
        if self.groups.len() > 0 {
            let p = self.key_start(self.groups.len() - 1);
            self.pos = p;
            self.val_ok = true;
        } else {
            self.pos = 0;
            self.val_ok = false;
        }
    }

    /// Moves to the first value of the current key.
    pub fn rewind_vals(&mut self)
        requires
            old(self).wf(),
        ensures
            final(self).wf(),
            final(self).spec_groups() == old(self).spec_groups(),
            old(self).spec_key_valid() ==> is_key_start(final(self).spec_groups(), final(self).spec_pos())
                && final(self).spec_key() == old(self).spec_key() && final(self).spec_val_valid(),
            !old(self).spec_key_valid() ==> final(self).spec_pos() == old(self).spec_pos()
                && final(self).spec_val_valid() == old(self).spec_val_valid(),
    {
        if self.pos < self.groups.len() {
            let p = self.key_start(self.pos);
            self.pos = p;
            self.val_ok = true;
        }
    }

    /// Moves to the last value of the current key.
    pub fn fast_forward_vals(&mut self)
        requires
            old(self).wf(),
        ensures
            final(self).wf(),
            final(self).spec_groups() == old(self).spec_groups(),
            old(self).spec_key_valid() ==> is_key_end(final(self).spec_groups(), final(self).spec_pos())
                && final(self).spec_key() == old(self).spec_key() && final(self).spec_val_valid(),
            !old(self).spec_key_valid() ==> final(self).spec_pos() == old(self).spec_pos()
                && final(self).spec_val_valid() == old(self).spec_val_valid(),
    {
        if self.pos < self.groups.len() {
            let p = self.key_end(self.pos);
            self.pos = p;
            self.val_ok = true;
        }
    }
}

impl PersistentTraceCursor {
    /// Whether position `i` holds key `key` with a value below `val`.
    fn same_key_below(&self, i: usize, key: u64, val: &Vec<u8>) -> (r: bool)
        requires
            i < self.spec_groups().len(),
        ensures
            r == (self.spec_groups()[i as int].0 == key && bytes_lt(self.spec_groups()[i as int].1, val@)),
    {
        assert(self.spec_groups()[i as int] == group_view(self.groups@[i as int]));
        self.groups[i].0 == key && compare_bytes(&self.groups[i].1, val) < 0
    }

    /// Whether position `i` holds key `key` with a value above `val`.
    fn same_key_above(&self, i: usize, key: u64, val: &Vec<u8>) -> (r: bool)
        requires
            i < self.spec_groups().len(),
        ensures
            r == (self.spec_groups()[i as int].0 == key && bytes_lt(val@, self.spec_groups()[i as int].1)),
    {
        assert(self.spec_groups()[i as int] == group_view(self.groups@[i as int]));
        self.groups[i].0 == key && compare_bytes(&self.groups[i].1, val) > 0
    }

    /// Moves forward to the first value of the first key at or above `key`;
    /// stays put when the current key is already there. Past the last key
    /// the keys are exhausted.
    pub fn seek_key(&mut self, key: u64)
        requires
            old(self).wf(),
        ensures
            final(self).wf(),
            final(self).spec_groups() == old(self).spec_groups(),
            old(self).spec_key_valid() && old(self).spec_key() < key ==> {
                &&& old(self).spec_pos() < final(self).spec_pos() <= old(self).spec_groups().len()
                &&& forall|i: int|
                    old(self).spec_pos() < i < final(self).spec_pos() ==> #[trigger] old(
                        self,
                    ).spec_groups()[i].0 < key
                &&& final(self).spec_key_valid() ==> final(self).spec_key() >= key
                &&& final(self).spec_val_valid() == final(self).spec_key_valid()
            },
            !(old(self).spec_key_valid() && old(self).spec_key() < key) ==> final(self).spec_pos()
                == old(self).spec_pos() && final(self).spec_val_valid() == old(self).spec_val_valid(),
    {
        let ghost g = self.spec_groups();
        if self.pos < self.groups.len() && self.groups[self.pos].0 < key {
            assert(g[self.pos as int] == group_view(self.groups@[self.pos as int]));
            let mut lo: usize = self.pos + 1;
            let mut hi: usize = self.groups.len();
            while lo < hi
                invariant
                    self.pos < lo <= hi <= self.groups@.len(),
                    g == self.spec_groups(),
                    g.len() == self.groups@.len(),
                    groups_wf(g),
                    forall|i: int| self.pos < i < lo ==> #[trigger] g[i].0 < key,
                    forall|i: int| hi <= i < g.len() ==> #[trigger] g[i].0 >= key,
                decreases hi - lo,
            {
                let mid = lo + (hi - lo) / 2;
                assert(g[mid as int] == group_view(self.groups@[mid as int]));
                if self.groups[mid].0 < key {
                    proof {
                        assert forall|i: int| self.pos < i < mid + 1 implies #[trigger] g[i].0 < key by {
                            lemma_keys_sorted(g, i, mid as int);
                        }
                    }
                    lo = mid + 1;
                } else {
                    proof {
                        assert forall|i: int| mid <= i < g.len() implies #[trigger] g[i].0 >= key by {
                            lemma_keys_sorted(g, mid as int, i);
                        }
                    }
                    hi = mid;
                }
            }
            self.pos = lo;
            self.val_ok = lo < self.groups.len();
        }
    }

    /// Moves backward to the first value of the last key at or below `key`;
    /// stays put when the current key is already there. Before the first key
    /// the keys are exhausted.
    pub fn seek_key_reverse(&mut self, key: u64)
        requires
            old(self).wf(),
        ensures
            final(self).wf(),
            final(self).spec_groups() == old(self).spec_groups(),
            old(self).spec_key_valid() && old(self).spec_key() > key ==> if old(self).spec_groups()[0].0
                > key {
                !final(self).spec_key_valid() && !final(self).spec_val_valid()
            } else {
                &&& is_key_start(final(self).spec_groups(), final(self).spec_pos())
                &&& final(self).spec_key() <= key
                &&& forall|q: int|
                    0 <= q < old(self).spec_groups().len() && #[trigger] old(self).spec_groups()[q].0 <= key
                        ==> old(self).spec_groups()[q].0 <= final(self).spec_key()
                &&& final(self).spec_val_valid()
            },
            !(old(self).spec_key_valid() && old(self).spec_key() > key) ==> final(self).spec_pos()
                == old(self).spec_pos() && final(self).spec_val_valid() == old(self).spec_val_valid(),
    {
        let ghost g = self.spec_groups();
        if self.pos < self.groups.len() && self.groups[self.pos].0 > key {
            assert(g[self.pos as int] == group_view(self.groups@[self.pos as int]));
            let mut lo: usize = 0;
            let mut hi: usize = self.pos;
            while lo < hi
                invariant
                    0 <= lo <= hi <= self.pos < self.groups@.len(),
                    g == self.spec_groups(),
                    g.len() == self.groups@.len(),
                    groups_wf(g),
                    g[self.pos as int].0 > key,
                    forall|i: int| 0 <= i < lo ==> #[trigger] g[i].0 <= key,
                    forall|i: int| hi <= i < g.len() ==> #[trigger] g[i].0 > key,
                decreases hi - lo,
            {
                let mid = lo + (hi - lo) / 2;
                assert(g[mid as int] == group_view(self.groups@[mid as int]));
                if self.groups[mid].0 <= key {
                    proof {
                        assert forall|i: int| 0 <= i < mid + 1 implies #[trigger] g[i].0 <= key by {
                            lemma_keys_sorted(g, i, mid as int);
                        }
                    }
                    lo = mid + 1;
                } else {
                    proof {
                        assert forall|i: int| mid <= i < g.len() implies #[trigger] g[i].0 > key by {
                            lemma_keys_sorted(g, mid as int, i);
                        }
                    }
                    hi = mid;
                }
            }
            proof {
                if g.len() > 0 && lo == 0 {
                    assert(g[0].0 > key);
                }
            }
            if lo == 0 {
                self.pos = self.groups.len();
                self.val_ok = false;
            } else {
                let p = self.key_start(lo - 1);
                proof {
                    assert forall|q: int| 0 <= q < g.len() && #[trigger] g[q].0 <= key implies g[q].0 <= g[p as int].0 by {
                        if q >= lo {
                        } else {
                            lemma_keys_sorted(g, q, lo - 1);
                        }
                    }
                }
                self.pos = p;
                self.val_ok = true;
            }
        }
    }

    /// Moves forward within the current key to the first value at or above
    /// `val`; stays put when the current value is already there. When the
    /// key has no such value the value becomes invalid.
    pub fn seek_val(&mut self, val: &Vec<u8>)
        requires
            old(self).wf(),
        ensures
            final(self).wf(),
            final(self).spec_groups() == old(self).spec_groups(),
            old(self).spec_val_valid() && bytes_lt(old(self).spec_groups()[old(self).spec_pos()].1, val@) ==> {
                &&& final(self).spec_val_valid() ==> {
                    &&& old(self).spec_pos() < final(self).spec_pos()
                    &&& final(self).spec_key() == old(self).spec_key()
                    &&& !bytes_lt(final(self).spec_groups()[final(self).spec_pos()].1, val@)
                    &&& forall|i: int|
                        old(self).spec_pos() < i < final(self).spec_pos() ==> bytes_lt(
                            #[trigger] old(self).spec_groups()[i].1,
                            val@,
                        )
                }
                &&& !final(self).spec_val_valid() ==> {
                    &&& final(self).spec_pos() == old(self).spec_pos()
                    &&& forall|i: int|
                        old(self).spec_pos() < i < old(self).spec_groups().len()
                            && #[trigger] old(self).spec_groups()[i].0 == old(self).spec_key() ==> bytes_lt(
                            old(self).spec_groups()[i].1,
                            val@,
                        )
                }
            },
            !(old(self).spec_val_valid() && bytes_lt(old(self).spec_groups()[old(self).spec_pos()].1, val@))
                ==> final(self).spec_pos() == old(self).spec_pos() && final(self).spec_val_valid()
                == old(self).spec_val_valid(),
    {
        let ghost g = self.spec_groups();
        if !self.val_ok {
            return;
        }
        assert(g[self.pos as int] == group_view(self.groups@[self.pos as int]));
        if compare_bytes(&self.groups[self.pos].1, val) >= 0 {
            return;
        }
        let key = self.groups[self.pos].0;
        let n: usize = self.groups.len();
        assert(self.pos < n);
        let p: usize = self.pos;
        let mut i: usize = p + 1;
        while i < self.groups.len() && self.same_key_below(i, key, val)
            invariant
                p < i <= self.groups@.len(),
                p == self.pos,
                g == self.spec_groups(),
                g.len() == self.groups@.len(),
                g[p as int].0 == key,
                forall|j: int| p < j < i ==> #[trigger] g[j].0 == key && bytes_lt(g[j].1, val@),
            decreases self.groups@.len() - i,
        {
            let ghost prev = i as int;
            assert(g[prev].0 == key);
            assert(bytes_lt(g[prev].1, val@));
            i = i + 1;
            assert forall|j: int| p < j < i implies #[trigger] g[j].0 == key && bytes_lt(g[j].1, val@) by {
                if j < prev {
                } else {
                    assert(j == prev);
                    assert(g[j] == g[prev]);
                }
            }
        }
        proof {
            if i < self.groups@.len() {
                assert(g[i as int] == group_view(self.groups@[i as int]));
            }
        }
        if i < self.groups.len() && self.groups[i].0 == key {
            self.pos = i;
        } else {
            proof {
                assert forall|j: int| self.pos < j < g.len() && #[trigger] g[j].0 == key implies bytes_lt(g[j].1, val@) by {
                    if j >= i {
                        lemma_keys_sorted(g, i as int, j);
                    }
                }
            }
            self.val_ok = false;
        }
    }

    /// Moves backward within the current key to the last value at or below
    /// `val`; stays put when the current value is already there. When the
    /// key has no such value the value becomes invalid.
    pub fn seek_val_reverse(&mut self, val: &Vec<u8>)
        requires
            old(self).wf(),
        ensures
            final(self).wf(),
            final(self).spec_groups() == old(self).spec_groups(),
            old(self).spec_val_valid() && bytes_lt(val@, old(self).spec_groups()[old(self).spec_pos()].1) ==> {
                &&& final(self).spec_val_valid() ==> {
                    &&& final(self).spec_pos() < old(self).spec_pos()
                    &&& final(self).spec_key() == old(self).spec_key()
                    &&& !bytes_lt(val@, final(self).spec_groups()[final(self).spec_pos()].1)
                    &&& forall|i: int|
                        final(self).spec_pos() < i < old(self).spec_pos() ==> bytes_lt(
                            val@,
                            #[trigger] old(self).spec_groups()[i].1,
                        )
                }
                &&& !final(self).spec_val_valid() ==> {
                    &&& final(self).spec_pos() == old(self).spec_pos()
                    &&& forall|i: int|
                        0 <= i < old(self).spec_pos() && #[trigger] old(self).spec_groups()[i].0
                            == old(self).spec_key() ==> bytes_lt(val@, old(self).spec_groups()[i].1)
                }
            },
            !(old(self).spec_val_valid() && bytes_lt(val@, old(self).spec_groups()[old(self).spec_pos()].1))
                ==> final(self).spec_pos() == old(self).spec_pos() && final(self).spec_val_valid()
                == old(self).spec_val_valid(),
    {
        let ghost g = self.spec_groups();
        if !self.val_ok {
            return;
        }
        assert(g[self.pos as int] == group_view(self.groups@[self.pos as int]));
        if compare_bytes(&self.groups[self.pos].1, val) <= 0 {
            return;
        }
        let key = self.groups[self.pos].0;
        let mut i: usize = self.pos;
        while i > 0 && self.same_key_above(i - 1, key, val)
            invariant
                i <= self.pos < self.groups@.len(),
                g == self.spec_groups(),
                g.len() == self.groups@.len(),
                g[self.pos as int].0 == key,
                forall|j: int| i <= j < self.pos ==> #[trigger] g[j].0 == key && bytes_lt(val@, g[j].1),
            decreases i,
        {
            assert(g[i - 1].0 == key && bytes_lt(val@, g[i - 1].1));
            i = i - 1;
        }
        proof {
            if i > 0 {
                assert(g[i - 1] == group_view(self.groups@[i - 1]));
            }
        }
        if i > 0 && self.groups[i - 1].0 == key {
            self.pos = i - 1;
        } else {
            proof {
                assert forall|j: int| 0 <= j < self.pos && #[trigger] g[j].0 == key implies bytes_lt(val@, g[j].1) by {
                    if j < i {
                        lemma_keys_sorted(g, j, i - 1);
                    }
                }
            }
            self.val_ok = false;
        }
    }
}

/// `r` is what folding `f` over the pairs `ts` from `init` gives: some
/// chain of results, each what `f` returns on the one before and the next
/// pair.
pub open spec fn folds_to<U, F: Fn(U, u64, i64) -> U>(f: F, init: U, ts: TimesModel, r: U) -> bool {
    exists|accs: Seq<U>|
        {
            &&& accs.len() == ts.len() + 1
            &&& accs[0] == init
            &&& accs.last() == r
            &&& forall|i: int|
                0 <= i < ts.len() ==> f.ensures((accs[i], ts[i].0, ts[i].1), #[trigger] accs[i + 1])
        }
}

/// The pairs of `ts` whose time is at or below `upper`, in order.
pub open spec fn times_through(ts: TimesModel, upper: u64) -> TimesModel
    decreases ts.len(),
{
    if ts.len() == 0 {
        ts
    } else if ts.last().0 <= upper {
        times_through(ts.drop_last(), upper).push(ts.last())
    } else {
        times_through(ts.drop_last(), upper)
    }
}

/// The wrapped sum of the weights of `ts`.
pub open spec fn total_weight(ts: TimesModel) -> i64
    decreases ts.len(),
{
    if ts.len() == 0 {
        0
    } else {
        crate::record::wadd(total_weight(ts.drop_last()), ts.last().1)
    }
}

impl PersistentTraceCursor {
    /// The `(time, weight)` pairs of the current group.
    pub open spec fn spec_times(&self) -> TimesModel {
        self.spec_groups()[self.spec_pos()].2
    }

    /// Folds `f` over the current value's `(time, weight)` pairs in time
    /// order, starting from `init`; `init` itself when the value is invalid.
    pub fn fold_times<U, F: Fn(U, u64, i64) -> U>(&self, init: U, f: F) -> (r: U)
        requires
            self.wf(),
            forall|u: U, t: u64, w: i64| #[trigger] f.requires((u, t, w)),
        ensures
            !self.spec_val_valid() ==> r == init,
            self.spec_val_valid() ==> folds_to(f, init, self.spec_times(), r),
    {
        if !self.val_ok {
            return init;
        }
        let ghost ts = self.spec_times();
        let tws = &self.groups[self.pos].2;
        assert(tws@ == ts);
        let mut acc = init;
        let ghost mut accs: Seq<U> = seq![init];
        let mut i: usize = 0;
        while i < tws.len()
            invariant
                0 <= i <= tws@.len(),
                tws@ == ts,
                forall|u: U, t: u64, w: i64| #[trigger] f.requires((u, t, w)),
                accs.len() == i + 1,
                accs[0] == init,
                accs.last() == acc,
                forall|j: int| 0 <= j < i ==> f.ensures((accs[j], ts[j].0, ts[j].1), #[trigger] accs[j + 1]),
            decreases tws@.len() - i,
        {
            let (t, w) = tws[i];
            let next = f(acc, t, w);
            proof {
                accs = accs.push(next);
            }
            acc = next;
            i = i + 1;
        }
        acc
    }

    /// Folds `f` over the current value's `(time, weight)` pairs whose time
    /// is at or below `upper`, in time order, starting from `init`; `init`
    /// itself when the value is invalid.
    pub fn fold_times_through<U, F: Fn(U, u64, i64) -> U>(&self, upper: u64, init: U, f: F) -> (r: U)
        requires
            self.wf(),
            forall|u: U, t: u64, w: i64| #[trigger] f.requires((u, t, w)),
        ensures
            !self.spec_val_valid() ==> r == init,
            self.spec_val_valid() ==> folds_to(f, init, times_through(self.spec_times(), upper), r),
    {
        if !self.val_ok {
            return init;
        }
        let ghost ts = self.spec_times();
        let tws = &self.groups[self.pos].2;
        assert(tws@ == ts);
        let mut acc = init;
        let ghost mut accs: Seq<U> = seq![init];
        let mut i: usize = 0;
        while i < tws.len()
            invariant
                0 <= i <= tws@.len(),
                tws@ == ts,
                forall|u: U, t: u64, w: i64| #[trigger] f.requires((u, t, w)),
                accs.len() == times_through(ts.take(i as int), upper).len() + 1,
                accs[0] == init,
                accs.last() == acc,
                forall|j: int|
                    0 <= j < times_through(ts.take(i as int), upper).len() ==> f.ensures(
                        (
                            accs[j],
                            times_through(ts.take(i as int), upper)[j].0,
                            times_through(ts.take(i as int), upper)[j].1,
                        ),
                        #[trigger] accs[j + 1],
                    ),
            decreases tws@.len() - i,
        {
            let (t, w) = tws[i];
            let ghost before = times_through(ts.take(i as int), upper);
            proof {
                assert(ts.take(i + 1).drop_last() =~= ts.take(i as int));
                assert(ts.take(i + 1).last() == (t, w));
            }
            if t <= upper {
                let next = f(acc, t, w);
                proof {
                    let after = times_through(ts.take(i + 1), upper);
                    assert(after == before.push((t, w)));
                    accs = accs.push(next);
                    assert forall|j: int| 0 <= j < after.len() implies f.ensures(
                        (accs[j], after[j].0, after[j].1),
                        #[trigger] accs[j + 1],
                    ) by {
                        if j < before.len() {
                            assert(after[j] == before[j]);
                        }
                    }
                }
                acc = next;
            }
            i = i + 1;
        }
        proof {
            assert(ts.take(i as int) =~= ts);
        }
        acc
    }

    /// The first weight of the current value, its only one when times carry
    /// no information.
    pub fn weight(&self) -> (r: i64)
        requires
            self.wf(),
            self.spec_val_valid(),
        ensures
            r == self.spec_times()[0].1,
    {
        let ghost g = self.spec_groups();
        assert(g[self.pos as int] == group_view(self.groups@[self.pos as int]));
        assert(g[self.pos as int].2.len() > 0);
        self.groups[self.pos].2[0].1
    }

    /// The wrapped sum of the current value's weights over all its times.
    pub fn total_weight(&self) -> (r: i64)
        requires
            self.wf(),
            self.spec_val_valid(),
        ensures
            r == total_weight(self.spec_times()),
    {
        let ghost ts = self.spec_times();
        let tws = &self.groups[self.pos].2;
        let mut acc: i64 = 0;
        let mut i: usize = 0;
        while i < tws.len()
            invariant
                0 <= i <= tws@.len(),
                tws@ == ts,
                acc == total_weight(ts.take(i as int)),
            decreases tws@.len() - i,
        {
            proof {
                assert(ts.take(i + 1).drop_last() =~= ts.take(i as int));
            }
            acc = acc.wrapping_add(tws[i].1);
            i = i + 1;
        }
        proof {
            assert(ts.take(i as int) =~= ts);
        }
        acc
    }
}

impl PersistentTraceCursor {
    /// The groups the cursor walks over, given up.
    pub fn into_groups(self) -> (r: Vec<Group>)
        ensures
            r@.map_values(|g: Group| group_view(g)) == self.spec_groups(),
    {
        self.groups
    }
}

impl PersistentTraceCursor {
    /// Moves forward, from the current key on, to the first value of the
    /// first key that `pred` accepts; stays put when it accepts the current
    /// key. Past the last key the keys are exhausted.
    pub fn seek_key_with<P: Fn(u64) -> bool>(&mut self, pred: P)
        requires
            old(self).wf(),
            forall|k: u64| #[trigger] pred.requires((k,)),
        ensures
            final(self).wf(),
            final(self).spec_groups() == old(self).spec_groups(),
            !old(self).spec_key_valid() ==> final(self).spec_pos() == old(self).spec_pos()
                && final(self).spec_val_valid() == old(self).spec_val_valid(),
            old(self).spec_key_valid() ==> {
                &&& old(self).spec_pos() <= final(self).spec_pos()
                &&& forall|i: int|
                    old(self).spec_pos() <= i < final(self).spec_pos() ==> pred.ensures(
                        (#[trigger] old(self).spec_groups()[i].0,),
                        false,
                    )
                &&& final(self).spec_key_valid() ==> pred.ensures((final(self).spec_key(),), true)
                &&& final(self).spec_pos() == old(self).spec_pos() ==> final(self).spec_val_valid()
                    == old(self).spec_val_valid()
                &&& final(self).spec_pos() != old(self).spec_pos() ==> final(self).spec_val_valid()
                    == final(self).spec_key_valid() && (final(self).spec_key_valid() ==> is_key_start(
                    final(self).spec_groups(),
                    final(self).spec_pos(),
                ))
            },
    {
        let ghost g = self.spec_groups();
        let ghost p0 = self.pos as int;
        if self.pos >= self.groups.len() {
            return;
        }
        let mut i: usize = self.pos;
        let mut found = false;
        while !found && i < self.groups.len()
            invariant
                p0 <= i <= self.groups@.len(),
                p0 == self.pos,
                g == self.spec_groups(),
                g.len() == self.groups@.len(),
                forall|k: u64| #[trigger] pred.requires((k,)),
                i == p0 || i == g.len() || is_key_start(g, i as int),
                found ==> i < g.len() && pred.ensures((g[i as int].0,), true),
                forall|j: int| p0 <= j < i ==> pred.ensures((#[trigger] g[j].0,), false),
            decreases self.groups@.len() - i + if found {
                0int
            } else {
                1int
            },
        {
            assert(g[i as int] == group_view(self.groups@[i as int]));
            let key = self.groups[i].0;
            if pred(key) {
                found = true;
            } else {
                let ghost start = i as int;
                let mut j: usize = i + 1;
                while j < self.groups.len() && self.groups[j].0 == key
                    invariant
                        start < j <= self.groups@.len(),
                        g == self.spec_groups(),
                        g.len() == self.groups@.len(),
                        forall|m: int| start <= m < j ==> #[trigger] g[m].0 == key,
                    decreases self.groups@.len() - j,
                {
                    assert(g[j as int] == group_view(self.groups@[j as int]));
                    j = j + 1;
                }
                proof {
                    if j < self.groups@.len() {
                        assert(g[j as int] == group_view(self.groups@[j as int]));
                        assert(g[j - 1].0 == key);
                    }
                    assert forall|m: int| p0 <= m < j implies pred.ensures((#[trigger] g[m].0,), false) by {
                        if m >= start {
                            assert(g[m].0 == key);
                        }
                    }
                }
                i = j;
            }
        }
        if i != self.pos {
            self.pos = i;
            self.val_ok = i < self.groups.len();
        }
    }

    /// Moves forward within the current key, from the current value on, to
    /// the first value that `pred` accepts; stays put when it accepts the
    /// current value. When no value left of the key is accepted the value
    /// becomes invalid.
    pub fn seek_val_with<P: Fn(&Vec<u8>) -> bool>(&mut self, pred: P)
        requires
            old(self).wf(),
            forall|v: &Vec<u8>| #[trigger] pred.requires((v,)),
        ensures
            final(self).wf(),
            final(self).spec_groups() == old(self).spec_groups(),
            !old(self).spec_val_valid() ==> final(self).spec_pos() == old(self).spec_pos()
                && !final(self).spec_val_valid(),
            old(self).spec_val_valid() ==> {
                &&& forall|i: int|
                    old(self).spec_pos() <= i < final(self).spec_pos() ==> exists|v: &Vec<u8>|
                        v@ == #[trigger] old(self).spec_groups()[i].1 && pred.ensures((v,), false)
                &&& final(self).spec_val_valid() ==> {
                    &&& old(self).spec_pos() <= final(self).spec_pos()
                    &&& final(self).spec_key() == old(self).spec_key()
                    &&& exists|v: &Vec<u8>|
                        v@ == final(self).spec_groups()[final(self).spec_pos()].1 && pred.ensures((v,), true)
                }
                &&& !final(self).spec_val_valid() ==> {
                    &&& final(self).spec_pos() == old(self).spec_pos()
                    &&& forall|i: int|
                        old(self).spec_pos() <= i < old(self).spec_groups().len()
                            && #[trigger] old(self).spec_groups()[i].0 == old(self).spec_key() ==> exists|
                            v: &Vec<u8>,
                        | v@ == old(self).spec_groups()[i].1 && pred.ensures((v,), false)
                }
            },
    {
        let ghost g = self.spec_groups();
        let ghost p0 = self.pos as int;
        if !self.val_ok {
            return;
        }
        assert(g[p0] == group_view(self.groups@[p0]));
        let key = self.groups[self.pos].0;
        let n: usize = self.groups.len();
        let mut i: usize = self.pos;
        let mut found = false;
        let mut done = false;
        while !done
            invariant
                p0 <= i < g.len(),
                n == g.len(),
                p0 == self.pos,
                self.val_ok,
                g == self.spec_groups(),
                g.len() == self.groups@.len(),
                groups_wf(g),
                forall|v: &Vec<u8>| #[trigger] pred.requires((v,)),
                g[p0].0 == key,
                g[i as int].0 == key,
                found ==> done,
                forall|j: int| p0 <= j < i ==> exists|v: &Vec<u8>| v@ == #[trigger] g[j].1 && pred.ensures((v,), false),
                done && found ==> exists|v: &Vec<u8>| v@ == g[i as int].1 && pred.ensures((v,), true),
                done && !found ==> forall|j: int|
                    p0 <= j < g.len() && #[trigger] g[j].0 == key ==> exists|v: &Vec<u8>|
                        v@ == g[j].1 && pred.ensures((v,), false),
            decreases g.len() - i + if done {
                0int
            } else {
                1int
            },
        {
            assert(g[i as int] == group_view(self.groups@[i as int]));
            let v = &self.groups[i].1;
            if pred(v) {
                found = true;
                done = true;
            } else if i + 1 < n && self.groups[i + 1].0 == key {
                assert(g[i + 1] == group_view(self.groups@[i + 1]));
                i = i + 1;
            } else {
                proof {
                    if i + 1 < n {
                        assert(g[i + 1] == group_view(self.groups@[i + 1]));
                    }
                    assert forall|j: int| p0 <= j < g.len() && #[trigger] g[j].0 == key implies exists|w: &Vec<u8>|
                        w@ == g[j].1 && pred.ensures((w,), false) by {
                        if j > i {
                            lemma_keys_sorted(g, i + 1, j);
                        } else if j == i {
                            assert(v@ == g[j].1 && pred.ensures((v,), false));
                        }
                    }
                }
                done = true;
            }
        }
        if found {
            self.pos = i;
        } else {
            self.val_ok = false;
        }
    }

    /// Moves backward, from the current key on, to the first value of the
    /// first key that `pred` accepts; stays put when it accepts the current
    /// key. Before the first key the keys are exhausted.
    pub fn seek_key_with_reverse<P: Fn(u64) -> bool>(&mut self, pred: P)
        requires
            old(self).wf(),
            forall|k: u64| #[trigger] pred.requires((k,)),
        ensures
            final(self).wf(),
            final(self).spec_groups() == old(self).spec_groups(),
            !old(self).spec_key_valid() ==> final(self).spec_pos() == old(self).spec_pos()
                && final(self).spec_val_valid() == old(self).spec_val_valid(),
            old(self).spec_key_valid() && final(self).spec_key_valid() ==> {
                &&& final(self).spec_pos() <= old(self).spec_pos()
                &&& pred.ensures((final(self).spec_key(),), true)
                &&& forall|j: int|
                    final(self).spec_pos() <= j <= old(self).spec_pos() && #[trigger] old(self).spec_groups()[j].0
                        != final(self).spec_key() ==> pred.ensures((old(self).spec_groups()[j].0,), false)
                &&& final(self).spec_pos() == old(self).spec_pos() ==> final(self).spec_val_valid()
                    == old(self).spec_val_valid()
                &&& final(self).spec_pos() != old(self).spec_pos() ==> final(self).spec_val_valid()
                    && is_key_start(final(self).spec_groups(), final(self).spec_pos())
            },
            old(self).spec_key_valid() && !final(self).spec_key_valid() ==> {
                &&& !final(self).spec_val_valid()
                &&& forall|j: int|
                    0 <= j <= old(self).spec_pos() ==> pred.ensures((#[trigger] old(self).spec_groups()[j].0,), false)
            },
    {
        let ghost g = self.spec_groups();
        let ghost p0 = self.pos as int;
        if self.pos >= self.groups.len() {
            return;
        }
        let mut i: usize = self.pos;
        let mut found = false;
        let mut exhausted = false;
        while !found && !exhausted
            invariant
                0 <= i <= p0 < g.len(),
                p0 == self.pos,
                g == self.spec_groups(),
                g.len() == self.groups@.len(),
                groups_wf(g),
                self.wf(),
                forall|k: u64| #[trigger] pred.requires((k,)),
                i == p0 || is_key_start(g, i as int),
                !(found && exhausted),
                found ==> pred.ensures((g[i as int].0,), true),
                forall|j: int| i <= j <= p0 && #[trigger] g[j].0 != g[i as int].0 ==> pred.ensures((g[j].0,), false),
                exhausted ==> forall|j: int| 0 <= j <= p0 ==> pred.ensures((#[trigger] g[j].0,), false),
            decreases i + if found || exhausted {
                0int
            } else {
                1int
            },
        {
            assert(g[i as int] == group_view(self.groups@[i as int]));
            let key = self.groups[i].0;
            if pred(key) {
                found = true;
            } else {
                let start = self.key_start(i);
                proof {
                    assert forall|j: int| start <= j <= p0 implies pred.ensures((#[trigger] g[j].0,), false) by {
                        if j <= i {
                            assert(g[j].0 == key);
                        } else if g[j].0 == key {
                        }
                    }
                }
                if start == 0 {
                    exhausted = true;
                } else {
                    let prev = self.key_start(start - 1);
                    proof {
                        assert forall|j: int| prev <= j <= p0 && #[trigger] g[j].0 != g[prev as int].0 implies pred.ensures(
                            (g[j].0,),
                            false,
                        ) by {
                            if j < start {
                                assert(g[j].0 == g[start - 1].0);
                            }
                        }
                    }
                    i = prev;
                }
            }
        }
        if exhausted {
            self.pos = self.groups.len();
            self.val_ok = false;
        } else if i != self.pos {
            self.pos = i;
            self.val_ok = true;
        }
    }

    /// Moves backward within the current key, from the current value on, to
    /// the first value that `pred` accepts; stays put when it accepts the
    /// current value. When no value before it is accepted the value becomes
    /// invalid.
    pub fn seek_val_with_reverse<P: Fn(&Vec<u8>) -> bool>(&mut self, pred: P)
        requires
            old(self).wf(),
            forall|v: &Vec<u8>| #[trigger] pred.requires((v,)),
        ensures
            final(self).wf(),
            final(self).spec_groups() == old(self).spec_groups(),
            !old(self).spec_val_valid() ==> final(self).spec_pos() == old(self).spec_pos()
                && !final(self).spec_val_valid(),
            old(self).spec_val_valid() ==> {
                &&& forall|i: int|
                    final(self).spec_pos() < i <= old(self).spec_pos() ==> exists|v: &Vec<u8>|
                        v@ == #[trigger] old(self).spec_groups()[i].1 && pred.ensures((v,), false)
                &&& final(self).spec_val_valid() ==> {
                    &&& final(self).spec_pos() <= old(self).spec_pos()
                    &&& final(self).spec_key() == old(self).spec_key()
                    &&& exists|v: &Vec<u8>|
                        v@ == final(self).spec_groups()[final(self).spec_pos()].1 && pred.ensures((v,), true)
                }
                &&& !final(self).spec_val_valid() ==> {
                    &&& final(self).spec_pos() == old(self).spec_pos()
                    &&& forall|i: int|
                        0 <= i <= old(self).spec_pos() && #[trigger] old(self).spec_groups()[i].0
                            == old(self).spec_key() ==> exists|v: &Vec<u8>|
                            v@ == old(self).spec_groups()[i].1 && pred.ensures((v,), false)
                }
            },
    {
        let ghost g = self.spec_groups();
        let ghost p0 = self.pos as int;
        if !self.val_ok {
            return;
        }
        assert(g[p0] == group_view(self.groups@[p0]));
        let key = self.groups[self.pos].0;
        let mut i: usize = self.pos;
        let mut found = false;
        let mut done = false;
        while !done
            invariant
                0 <= i <= p0 < g.len(),
                p0 == self.pos,
                self.val_ok,
                g == self.spec_groups(),
                g.len() == self.groups@.len(),
                groups_wf(g),
                forall|v: &Vec<u8>| #[trigger] pred.requires((v,)),
                g[p0].0 == key,
                g[i as int].0 == key,
                found ==> done,
                forall|j: int| i < j <= p0 ==> exists|v: &Vec<u8>| v@ == #[trigger] g[j].1 && pred.ensures((v,), false),
                done && found ==> exists|v: &Vec<u8>| v@ == g[i as int].1 && pred.ensures((v,), true),
                done && !found ==> forall|j: int|
                    0 <= j <= p0 && #[trigger] g[j].0 == key ==> exists|v: &Vec<u8>|
                        v@ == g[j].1 && pred.ensures((v,), false),
            decreases i + if done {
                0int
            } else {
                1int
            },
        {
            assert(g[i as int] == group_view(self.groups@[i as int]));
            let v = &self.groups[i].1;
            if pred(v) {
                found = true;
                done = true;
            } else if i > 0 && self.groups[i - 1].0 == key {
                assert(g[i - 1] == group_view(self.groups@[i - 1]));
                proof {
                    assert(v@ == g[i as int].1 && pred.ensures((v,), false));
                }
                i = i - 1;
            } else {
                proof {
                    if i > 0 {
                        assert(g[i - 1] == group_view(self.groups@[i - 1]));
                    }
                    assert forall|j: int| 0 <= j <= p0 && #[trigger] g[j].0 == key implies exists|w: &Vec<u8>|
                        w@ == g[j].1 && pred.ensures((w,), false) by {
                        if j < i {
                            lemma_keys_sorted(g, j, i - 1);
                        } else if j == i {
                            assert(v@ == g[j].1 && pred.ensures((v,), false));
                        }
                    }
                }
                done = true;
            }
        }
        if found {
            self.pos = i;
        } else {
            self.val_ok = false;
        }
    }
}

} // verus!
