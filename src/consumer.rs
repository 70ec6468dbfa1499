//! Consuming a trace by value: key by key, and for each key its
//! `(value, weight, time)` triples.

use vstd::prelude::*;
use crate::cursor::{group_view, groups_wf, is_next_key_pos, Group, GroupModel};

verus! {

/// An update of one key as a value consumer hands it out.
pub type ValueUpdate = (Vec<u8>, i64, u64);

/// Model of a value update.
pub type ValueUpdateModel = (Seq<u8>, i64, u64);

pub open spec fn value_update_view(u: ValueUpdate) -> ValueUpdateModel {
    (u.0@, u.1, u.2)
}

/// The `(value, weight, time)` triples of groups, group by group and time
/// by time.
pub open spec fn value_updates(g: Seq<GroupModel>) -> Seq<ValueUpdateModel>
    decreases g.len(),
{
    if g.len() == 0 {
        Seq::empty()
    } else {
        value_updates(g.drop_last()) + g.last().2.map_values(|tw: (u64, i64)| (g.last().1, tw.1, tw.0))
    }
}

/// Hands out a trace's keys in order, each with a consumer of its updates.
pub struct PersistentConsumer {
    groups: Vec<Group>,
    pos: usize,
}

/// Hands out the `(value, weight, time)` updates of one key in order.
pub struct PersistentTraceValueConsumer {
    updates: Vec<ValueUpdate>,
    pos: usize,
}

impl PersistentConsumer {
    pub closed spec fn spec_groups(&self) -> Seq<GroupModel> {
        self.groups@.map_values(|g: Group| group_view(g))
    }

    pub closed spec fn spec_pos(&self) -> int {
        self.pos as int
    }

    pub open spec fn wf(&self) -> bool {
        &&& 0 <= self.spec_pos() <= self.spec_groups().len()
        &&& groups_wf(self.spec_groups())
        &&& (self.spec_pos() == 0 || self.spec_pos() == self.spec_groups().len()
            || self.spec_groups()[self.spec_pos() - 1].0 != self.spec_groups()[self.spec_pos()].0)
    }

    /// A consumer of the given groups, positioned on the first key.
    pub fn new(groups: Vec<Group>) -> (r: Self)
        requires
            groups_wf(groups@.map_values(|g: Group| group_view(g))),
        ensures
            r.wf(),
            r.spec_groups() == groups@.map_values(|g: Group| group_view(g)),
            r.spec_pos() == 0,
    {
        PersistentConsumer { groups, pos: 0 }
    }

    /// Whether a key is left.
    pub fn key_valid(&self) -> (r: bool)
        requires
            self.wf(),
        ensures
            r == (self.spec_pos() < self.spec_groups().len()),
    {
        self.pos < self.groups.len()
    }

    /// The next key, without consuming it.
    pub fn peek_key(&self) -> (r: u64)
        requires
            self.wf(),
            self.spec_pos() < self.spec_groups().len(),
        ensures
            r == self.spec_groups()[self.spec_pos()].0,
    {
        assert(self.spec_groups()[self.spec_pos()] == group_view(self.groups@[self.spec_pos()]));
        self.groups[self.pos].0
    }

    /// Consumes the next key: returns it with a consumer of its updates.
    pub fn next_key(&mut self) -> (r: (u64, PersistentTraceValueConsumer))
        requires
            old(self).wf(),
            old(self).spec_pos() < old(self).spec_groups().len(),
        ensures
            final(self).wf(),
            final(self).spec_groups() == old(self).spec_groups(),
            is_next_key_pos(old(self).spec_groups(), old(self).spec_pos(), final(self).spec_pos()),
            r.0 == old(self).spec_groups()[old(self).spec_pos()].0,
            r.1.spec_updates() == value_updates(
                old(self).spec_groups().subrange(old(self).spec_pos(), final(self).spec_pos()),
            ),
            r.1.spec_pos() == 0,
    {
        let ghost g = self.spec_groups();
        let ghost p0 = self.pos as int;
        assert(g[p0] == group_view(self.groups@[p0]));
        let key = self.groups[self.pos].0;
        let mut out: Vec<ValueUpdate> = Vec::new();
        let mut i: usize = self.pos;
        while i < self.groups.len() && self.groups[i].0 == key
            invariant
                p0 <= i <= self.groups@.len(),
                p0 == self.pos,
                g == self.spec_groups(),
                g.len() == self.groups@.len(),
                g[p0].0 == key,
                forall|j: int| p0 <= j < i ==> #[trigger] g[j].0 == key,
                out@.map_values(|u: ValueUpdate| value_update_view(u)) == value_updates(g.subrange(p0, i as int)),
            decreases self.groups@.len() - i,
        {
            assert(g[i as int] == group_view(self.groups@[i as int]));
            let ghost before = out@.map_values(|u: ValueUpdate| value_update_view(u));
            let tws = &self.groups[i].2;
            let ghost gi = g[i as int];
            let mut j: usize = 0;
            while j < tws.len()
                invariant
                    0 <= j <= tws@.len(),
                    i < self.groups@.len(),
                    tws@ == gi.2,
                    gi == group_view(self.groups@[i as int]),
                    out@.map_values(|u: ValueUpdate| value_update_view(u)) == before + gi.2.take(j as int).map_values(
                        |tw: (u64, i64)| (gi.1, tw.1, tw.0),
                    ),
                decreases tws@.len() - j,
            {
                let u: ValueUpdate = (crate::record::copy_bytes(&self.groups[i].1), tws[j].1, tws[j].0);
                proof {
                    assert(out@.push(u).map_values(|u: ValueUpdate| value_update_view(u)) =~= out@.map_values(
                        |u: ValueUpdate| value_update_view(u),
                    ).push(value_update_view(u)));
                    assert(gi.2.take(j + 1).map_values(|tw: (u64, i64)| (gi.1, tw.1, tw.0)) =~= gi.2.take(
                        j as int,
                    ).map_values(|tw: (u64, i64)| (gi.1, tw.1, tw.0)).push(value_update_view(u)));
                    assert(before + gi.2.take(j + 1).map_values(|tw: (u64, i64)| (gi.1, tw.1, tw.0)) =~= (before
                        + gi.2.take(j as int).map_values(|tw: (u64, i64)| (gi.1, tw.1, tw.0))).push(
                        value_update_view(u),
                    ));
                }
                out.push(u);
                j = j + 1;
            }
            proof {
                assert(gi.2.take(j as int) =~= gi.2);
                let sub = g.subrange(p0, i + 1);
                assert(sub.drop_last() =~= g.subrange(p0, i as int));
                assert(sub.last() == gi);
            }
            i = i + 1;
        }
        proof {
            if i < self.groups@.len() {
                assert(g[i as int] == group_view(self.groups@[i as int]));
            }
        }
        self.pos = i;
        (key, PersistentTraceValueConsumer { updates: out, pos: 0 })
    }

    /// Skips the keys below `key`.
    pub fn seek_key(&mut self, key: u64)
        requires
            old(self).wf(),
        ensures
            final(self).wf(),
            final(self).spec_groups() == old(self).spec_groups(),
            old(self).spec_pos() <= final(self).spec_pos(),
            forall|i: int|
                old(self).spec_pos() <= i < final(self).spec_pos() ==> #[trigger] old(self).spec_groups()[i].0
                    < key,
            final(self).spec_pos() < final(self).spec_groups().len()
                ==> final(self).spec_groups()[final(self).spec_pos()].0 >= key,
    {
        let ghost g = self.spec_groups();
        let ghost p0 = self.pos as int;
        let mut i: usize = self.pos;
        while i < self.groups.len() && self.groups[i].0 < key
            invariant
                p0 <= i <= self.groups@.len(),
                g == self.spec_groups(),
                g.len() == self.groups@.len(),
                groups_wf(g),
                p0 == 0 || p0 == g.len() || g[p0 - 1].0 != g[p0].0,
                forall|j: int| p0 <= j < i ==> #[trigger] g[j].0 < key,
            decreases self.groups@.len() - i,
        {
            assert(g[i as int] == group_view(self.groups@[i as int]));
            i = i + 1;
        }
        proof {
            if i < self.groups@.len() {
                assert(g[i as int] == group_view(self.groups@[i as int]));
                if i > p0 {
                    assert(g[i - 1].0 < key);
                }
            }
        }
        self.pos = i;
    }
}

impl PersistentTraceValueConsumer {
    pub closed spec fn spec_updates(&self) -> Seq<ValueUpdateModel> {
        self.updates@.map_values(|u: ValueUpdate| value_update_view(u))
    }

    pub closed spec fn spec_pos(&self) -> int {
        self.pos as int
    }

    pub open spec fn wf(&self) -> bool {
        0 <= self.spec_pos() <= self.spec_updates().len()
    }

    /// Whether an update is left.
    pub fn value_valid(&self) -> (r: bool)
        requires
            self.wf(),
        ensures
            r == (self.spec_pos() < self.spec_updates().len()),
    {
        self.pos < self.updates.len()
    }

    /// Consumes the next `(value, weight, time)` update.
    pub fn next_value(&mut self) -> (r: ValueUpdate)
        requires
            old(self).wf(),
            old(self).spec_pos() < old(self).spec_updates().len(),
        ensures
            final(self).wf(),
            final(self).spec_updates() == old(self).spec_updates(),
            final(self).spec_pos() == old(self).spec_pos() + 1,
            value_update_view(r) == old(self).spec_updates()[old(self).spec_pos()],
    {
        let n: usize = self.updates.len();
        assert(self.pos < n);
        let u = &self.updates[self.pos];
        let r = (crate::record::copy_bytes(&u.0), u.1, u.2);
        self.pos = self.pos + 1;
        r
    }

    /// How many updates are left.
    pub fn remaining_values(&self) -> (r: usize)
        requires
            self.wf(),
        ensures
            r == self.spec_updates().len() - self.spec_pos(),
    {
        self.updates.len() - self.pos
    }
}

} // verus!
